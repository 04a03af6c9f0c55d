//! One axis of the estimator, by what it does to a state.
use crate::double::facts;
use crate::double::rounding;
use crate::double::{Double, ONE, THREE, TWO, ZERO};
use crate::kalman::Kf1D;
use vstd::arithmetic::power2::*;
use vstd::prelude::*;

verus! {

/// Time moves the position along the velocity and adds noise to the variance of the
/// velocity. The velocity and the tuning stay.
pub proof fn law_time_moves_the_position(k: Kf1D, dt: Double)
    requires
        (Double { bits: ZERO }).below(dt),
    ensures
        k.predicted(dt).x == k.x.plus(k.v.times(dt)),
        k.predicted(dt).v == k.v,
        k.predicted(dt).p11 == k.p11.plus(k.q.times(dt)),
        k.predicted(dt).q == k.q && k.predicted(dt).r == k.r,
{
}

/// The four things that add to the variance of the position over `dt`: what there was, the
/// covariances, the variance of the velocity, and the noise.
pub open spec fn contributions(k: Kf1D, dt: Double) -> (Double, Double, Double, Double) {
    (
        k.p00,
        dt.times(k.p01.plus(k.p10)),
        dt.times(dt).times(k.p11),
        k.q.times(dt.times(dt).times(dt)).over(Double { bits: THREE }),
    )
}

/// Over time the variance of the position becomes no less than any of its contributions, and
/// no more than four times the largest, but for rounding.
pub proof fn law_time_widens_by_its_contributions(k: Kf1D, dt: Double, most: Double)
    requires
        k.well_posed(),
        (Double { bits: ZERO }).below(dt),
        dt.times(dt).times(dt).finite(),
        ({
            let (a, b, c, d) = contributions(k, dt);
            a.at_most(most) && b.at_most(most) && c.at_most(most) && d.at_most(most)
        }),
    ensures
        ({
            let (a, b, c, d) = contributions(k, dt);
            let p = k.predicted(dt).p00;
            &&& a.at_most(p) && b.at_most(p) && c.at_most(p) && d.at_most(p)
            &&& p.at_most(most.plus(most).plus(most).plus(most))
        }),
{
    let three = Double { bits: THREE };
    facts::lemma_units_order(0, 0);
    facts::lemma_units_order(THREE as nat, 0);
    facts::lemma_units_order(dt.magnitude(), 0);
    let dt2 = dt.times(dt);
    facts::lemma_times_sign(dt, dt);
    facts::lemma_units_order(dt2.magnitude(), 0);
    assert(dt2.finite() && dt.finite());
    facts::lemma_times_sign(dt2, dt);
    let cross = k.p01.plus(k.p10);
    facts::lemma_plus_grows(k.p01, k.p10);
    facts::lemma_times_sign(dt, cross);
    facts::lemma_times_sign(dt2, k.p11);
    facts::lemma_times_sign(k.q, dt2.times(dt));
    facts::lemma_over_sign(k.q.times(dt2.times(dt)), three);
    let (a, b, c, d) = contributions(k, dt);
    facts::lemma_plus_grows(a, b);
    facts::lemma_plus_grows(a.plus(b), c);
    facts::lemma_plus_grows(a.plus(b).plus(c), d);
    facts::lemma_sum_order(a, b, most, most);
    facts::lemma_sum_order(a.plus(b), c, most.plus(most), most);
    facts::lemma_sum_order(a.plus(b).plus(c), d, most.plus(most).plus(most), most);
}

/// Over time the covariances grow by what the variance of the velocity and the noise bring:
/// they become no less than either part, and no more than three times the largest, but for
/// rounding.
pub proof fn law_time_couples_position_and_velocity(k: Kf1D, dt: Double, most: Double)
    requires
        k.well_posed(),
        (Double { bits: ZERO }).below(dt),
        dt.times(dt).times(dt).finite(),
        k.p01.at_most(most) && k.p10.at_most(most),
        dt.times(k.p11).at_most(most),
        k.q.times(dt.times(dt)).over(Double { bits: TWO }).at_most(most),
    ensures
        ({
            let (p, q) = (k.predicted(dt).p01, k.predicted(dt).p10);
            let (b, c) = (
                dt.times(k.p11),
                k.q.times(dt.times(dt)).over(Double { bits: TWO }),
            );
            &&& k.p01.at_most(p) && b.at_most(p) && c.at_most(p)
            &&& k.p10.at_most(q) && b.at_most(q) && c.at_most(q)
            &&& p.at_most(most.plus(most).plus(most))
            &&& q.at_most(most.plus(most).plus(most))
        }),
{
    let two = Double { bits: TWO };
    facts::lemma_units_order(0, 0);
    facts::lemma_units_order(TWO as nat, 0);
    facts::lemma_units_order(dt.magnitude(), 0);
    let dt2 = dt.times(dt);
    facts::lemma_times_sign(dt, dt);
    facts::lemma_units_order(dt2.magnitude(), 0);
    assert(dt2.finite() && dt.finite());
    facts::lemma_times_sign(dt, k.p11);
    facts::lemma_times_sign(k.q, dt2);
    facts::lemma_over_sign(k.q.times(dt2), two);
    let (b, c) = (dt.times(k.p11), k.q.times(dt2).over(two));
    facts::lemma_plus_grows(k.p01, b);
    facts::lemma_plus_grows(k.p01.plus(b), c);
    facts::lemma_plus_grows(k.p10, b);
    facts::lemma_plus_grows(k.p10.plus(b), c);
    facts::lemma_sum_order(k.p01, b, most, most);
    facts::lemma_sum_order(k.p01.plus(b), c, most.plus(most), most);
    facts::lemma_sum_order(k.p10, b, most, most);
    facts::lemma_sum_order(k.p10.plus(b), c, most.plus(most), most);
}

/// The value of `x` is between those of `a` and `b`, whichever is the larger.
pub open spec fn between(a: Double, x: Double, b: Double) -> bool {
    &&& !x.nan()
    &&& a.value() <= x.value() <= b.value() || b.value() <= x.value() <= a.value()
}

/// A measurement moves the position towards what was measured: from the estimate, by no more
/// than the difference to the measurement, and by half of it or more where the estimate is
/// no more certain than the measurement. It moves the velocity by the gain p10 / (p00 + r)
/// times the difference.
pub proof fn law_a_measurement_draws_the_estimate(k: Kf1D, z: Double)
    requires
        k.well_posed(),
        (Double { bits: ZERO }).below(k.p00.plus(k.r)),
        k.x.finite(),
        z.minus(k.x).finite(),
    ensures
        between(k.x, k.updated(z).x, k.x.plus(z.minus(k.x))),
        // A gain of one half or more.
        (Double { bits: 0x3fe0_0000_0000_0000 }).at_most(k.p00.over(k.p00.plus(k.r))) ==> between(
            k.x.plus(z.minus(k.x).over(Double { bits: TWO })),
            k.updated(z).x,
            k.x.plus(z.minus(k.x)),
        ),
        k.updated(z).v == k.v.plus(k.p10.over(k.p00.plus(k.r)).times(z.minus(k.x))),
        k.updated(z).q == k.q && k.updated(z).r == k.r,
{
    let y = z.minus(k.x);
    let s = k.p00.plus(k.r);
    let g = k.p00.over(s);
    facts::lemma_units_order(0, 0);
    facts::lemma_plus_grows(k.p00, k.r);
    facts::lemma_over_at_most_one(k.p00, s);
    facts::lemma_one();
    lemma_pow2_pos(1074);
    facts::lemma_units_order(g.magnitude(), ONE as nat);
    facts::lemma_units_order(g.magnitude(), 0);
    facts::lemma_fraction_shrinks_magnitude(g, y);
    let w = g.times(y);
    lemma_drawn(g, y);
    let none = Double { bits: ZERO };
    facts::lemma_plus_zero(k.x, none);
    if y.value() >= 0 {
        facts::lemma_plus_order(k.x, none, w);
        facts::lemma_plus_order(k.x, w, y);
    } else {
        facts::lemma_plus_order(k.x, w, none);
        facts::lemma_plus_order(k.x, y, w);
    }
    if (Double { bits: 0x3fe0_0000_0000_0000 }).at_most(g) {
        lemma_half(g, y);
        let h = y.over(Double { bits: TWO });
        if y.value() >= 0 {
            facts::lemma_plus_order(k.x, h, w);
        } else {
            facts::lemma_plus_order(k.x, w, h);
        }
    }
}

/// A fraction of a number lies between nought and it.
proof fn lemma_drawn(g: Double, y: Double)
    requires
        !g.nan() && g.value() >= 0,
        g.magnitude() <= ONE,
        y.finite(),
    ensures
        g.times(y).finite(),
        y.value() >= 0 ==> 0 <= g.times(y).value() <= y.value(),
        y.value() <= 0 ==> y.value() <= g.times(y).value() <= 0,
{
    let w = g.times(y);
    facts::lemma_fraction_shrinks_magnitude(g, y);
    facts::lemma_units_order(w.magnitude(), y.magnitude());
    facts::lemma_units_order(0, 0);
    facts::lemma_times_error(g, y);
    let (a, b) = (g.value(), y.value());
    assert(b >= 0 ==> a * b >= 0) by (nonlinear_arith)
        requires
            a >= 0,
    ;
    assert(b <= 0 ==> a * b <= 0) by (nonlinear_arith)
        requires
            a >= 0,
    ;
    facts::lemma_units_order(y.magnitude(), 0);
}

/// One half of a number or more is no nearer to nought than its half.
proof fn lemma_half(g: Double, y: Double)
    requires
        (Double { bits: 0x3fe0_0000_0000_0000 }).at_most(g),
        g.magnitude() <= ONE,
        y.finite(),
    ensures
        ({
            let (w, h) = (g.times(y), y.over(Double { bits: TWO }));
            &&& !w.nan() && !h.nan()
            &&& y.value() >= 0 ==> h.value() <= w.value()
            &&& y.value() <= 0 ==> w.value() <= h.value()
        }),
{
    let two = Double { bits: TWO };
    let half: nat = 0x3fe0_0000_0000_0000;
    let one = pow2(1074);
    lemma_pow2_pos(1074);
    facts::lemma_units_order(0, 0);
    facts::lemma_units_order(half, 0);
    facts::lemma_units_order(TWO as nat, 0);
    facts::lemma_units_order(g.magnitude(), 0);
    assert(TWO as nat == (1023 + 1) * (rounding::HIDDEN as nat));
    facts::lemma_power(1);
    lemma_pow2_unfold(1075);
    assert(half / (rounding::HIDDEN as nat) == 1022 && half % (rounding::HIDDEN as nat) == 0);
    lemma2_to64_rest();
    lemma_pow2_adds(52, 1021);
    lemma_pow2_unfold(1074);
    let (a, b) = (rounding::units(g.magnitude()), rounding::units(y.magnitude()));
    let d = rounding::units(TWO as nat);
    assert(d == 2 * one && 2 * a >= one);
    let (w, h) = (g.times(y), y.over(two));
    assert(!g.negative());
    facts::lemma_rounded_to_nearest(y.negative(), a * b, one);
    facts::lemma_rounded_to_nearest(y.negative(), b * one, d);
    assert((b * one) * one <= (a * b) * d) by (nonlinear_arith)
        requires
            d == 2 * one,
            2 * a >= one,
    ;
    facts::lemma_nearest_order(b * one, d, h.magnitude(), a * b, one, w.magnitude());
    facts::lemma_units_order(h.magnitude(), w.magnitude());
    facts::lemma_units_order(y.magnitude(), 0);
    if y.magnitude() == 0 {
        facts::lemma_times_zero(g, y);
        assert(0 * one == 0) by (nonlinear_arith);
        facts::lemma_zero_rounds_to_zero(y.negative(), d);
    }
}

/// What a measurement makes of the state, by the gains p00 / (p00 + r) and p10 / (p00 + r),
/// and leaves of the covariance: the part of the position that is not gained, and of the
/// velocity what the gain does not take off.
pub proof fn law_a_measurement_narrows_by_the_gain(k: Kf1D, z: Double)
    ensures
        ({
            let s = k.p00.plus(k.r);
            let rest = (Double { bits: ONE }).minus(k.p00.over(s));
            let gain = k.p10.over(s);
            let after = k.updated(z);
            &&& after.x == k.x.plus(k.p00.over(s).times(z.minus(k.x)))
            &&& after.v == k.v.plus(gain.times(z.minus(k.x)))
            &&& after.p00 == rest.times(k.p00) && after.p01 == rest.times(k.p01)
            &&& after.p10 == k.p10.minus(gain.times(k.p00))
            &&& after.p11 == k.p11.minus(gain.times(k.p01))
        }),
{
}

/// A filter starts where and as fast as it is told, as certain of the position as a
/// measurement, and of the velocity to 500 metres per second.
pub proof fn law_a_filter_starts_from_one_measurement(x0: Double, v0: Double, q: Double, r: Double)
    ensures
        ({
            let k = Kf1D::initial(x0, v0, q, r);
            let zero = Double { bits: ZERO };
            &&& k.x == x0 && k.v == v0 && k.q == q && k.r == r
            &&& k.p00 == r && k.p01 == zero && k.p10 == zero
            // 250000.
            &&& k.p11 == (Double { bits: 0x410e_8480_0000_0000 })
        }),
{
}

} // verus!
