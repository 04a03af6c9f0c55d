//! Constant-velocity Kalman filter, one scalar axis.
//!
//! A 3-D constant-velocity target with diagonal process and measurement noise has a
//! block-diagonal covariance: the East, North and Up blocks never exchange information.
//! Running three independent 2-state filters is therefore numerically identical to one
//! 6-state filter, with no 6x6 matrix inversion, no heap allocation and a fixed
//! instruction count per update.
//!
//! State: [position, velocity]. Measurement: position only.
use crate::double::facts;
use crate::double::rounding;
use crate::double::rounding::INFINITE;
use crate::double::{Double, ONE, THREE, TWO, ZERO};
use vstd::arithmetic::power2::*;
use vstd::prelude::*;

verus! {

/// The bits of 500 * 500: a velocity prior of 500 m/s.
pub const LOOSE_PRIOR: u64 = 0x410e_8480_0000_0000;

#[derive(Clone, Copy, Debug)]
pub struct Kf1D {
    pub x: Double,
    pub v: Double,
    /// Covariance [[p00, p01], [p10, p11]], symmetric.
    pub p00: Double,
    pub p01: Double,
    pub p10: Double,
    pub p11: Double,
    /// Continuous white-noise-acceleration PSD, m^2/s^3.
    pub q: Double,
    /// Measurement variance, m^2.
    pub r: Double,
}

/// Result of a measurement update, kept for gating and track quality reporting.
#[derive(Clone, Copy, Debug)]
pub struct Innovation {
    /// Measurement minus prediction.
    pub y: Double,
    /// Innovation variance.
    pub s: Double,
}

impl Innovation {
    pub open spec fn squared(self) -> Double {
        self.y.times(self.y).over(self.s)
    }

    pub open spec fn deviation(self) -> Double {
        self.y.absolute().over(self.s.root())
    }

    /// Normalised innovation squared. Should average ~1.0 on a consistent filter.
    pub fn nis(&self) -> (r: Double)
        ensures
            r == self.squared(),
    {
        self.y * self.y / self.s
    }

    pub fn sigma(&self) -> (r: Double)
        ensures
            r == self.deviation(),
    {
        self.y.abs() / self.s.sqrt()
    }
}

impl Kf1D {
    /// The state after `dt` seconds without a measurement: P = F P F^T + Q, with
    /// F = [[1, dt], [0, 1]] and Q the continuous white-noise acceleration discretised
    /// over dt. Time does not run backwards: a `dt` of zero or less changes nothing.
    pub open spec fn predicted(self, dt: Double) -> Kf1D {
        if dt.at_most(Double { bits: ZERO }) {
            self
        } else {
            let dt2 = dt.times(dt);
            let dt3 = dt.times(dt).times(dt);
            let drift2 = self.q.times(dt2).over(Double { bits: TWO });
            let drift3 = self.q.times(dt3).over(Double { bits: THREE });
            Kf1D {
                x: self.x.plus(self.v.times(dt)),
                p00: self.p00.plus(dt.times(self.p01.plus(self.p10))).plus(
                    dt.times(dt).times(self.p11),
                ).plus(drift3),
                p01: self.p01.plus(dt.times(self.p11)).plus(drift2),
                p10: self.p10.plus(dt.times(self.p11)).plus(drift2),
                p11: self.p11.plus(self.q.times(dt)),
                ..self
            }
        }
    }

    pub open spec fn innovation_of(self, z: Double) -> Innovation {
        Innovation { y: z.minus(self.x), s: self.p00.plus(self.r) }
    }

    /// The state after the measurement `z`: P = (I - K H) P, with H = [1, 0].
    pub open spec fn updated(self, z: Double) -> Kf1D {
        let innov = self.innovation_of(z);
        let k0 = self.p00.over(innov.s);
        let k1 = self.p10.over(innov.s);
        let kept = (Double { bits: ONE }).minus(k0);
        Kf1D {
            x: self.x.plus(k0.times(innov.y)),
            v: self.v.plus(k1.times(innov.y)),
            p00: kept.times(self.p00),
            p01: kept.times(self.p01),
            p10: self.p10.minus(k1.times(self.p00)),
            p11: self.p11.minus(k1.times(self.p01)),
            ..self
        }
    }

    /// How much of an innovation the velocity takes up, per second.
    pub open spec fn velocity_gain(self, z: Double) -> Double {
        self.p10.over(self.innovation_of(z).s)
    }

    pub open spec fn position_sigma(self) -> Double {
        self.p00.larger(Double { bits: ZERO }).root()
    }

    pub open spec fn velocity_sigma(self) -> Double {
        self.p11.larger(Double { bits: ZERO }).root()
    }

    pub open spec fn initial(x0: Double, v0: Double, q: Double, r: Double) -> Kf1D {
        Kf1D {
            x: x0,
            v: v0,
            p00: r,
            p01: Double { bits: ZERO },
            p10: Double { bits: ZERO },
            p11: Double { bits: LOOSE_PRIOR },
            q,
            r,
        }
    }

    /// Initialise on a first measurement: position is known to `r`, velocity is not
    /// known at all, so it gets a deliberately loose prior rather than a guess.
    pub fn new(x0: Double, v0: Double, q: Double, r: Double) -> (k: Kf1D)
        ensures
            k == Kf1D::initial(x0, v0, q, r),
    {
        Kf1D {
            x: x0,
            v: v0,
            p00: r,
            p01: Double { bits: ZERO },
            p10: Double { bits: ZERO },
            p11: Double { bits: LOOSE_PRIOR },
            q,
            r,
        }
    }

    pub fn predict(&mut self, dt: Double)
        ensures
            *final(self) == old(self).predicted(dt),
    {
        if dt <= (Double { bits: ZERO }) {
            return;
        }
        self.x = self.x + self.v * dt;

        let p00 = self.p00 + dt * (self.p01 + self.p10) + dt * dt * self.p11;
        let p01 = self.p01 + dt * self.p11;
        let p10 = self.p10 + dt * self.p11;
        let p11 = self.p11;

        let dt2 = dt * dt;
        let dt3 = dt * dt * dt;
        self.p00 = p00 + self.q * dt3 / Double { bits: THREE };
        self.p01 = p01 + self.q * dt2 / Double { bits: TWO };
        self.p10 = p10 + self.q * dt2 / Double { bits: TWO };
        self.p11 = p11 + self.q * dt;
    }

    /// Innovation for a candidate measurement, without applying it. Used for gating.
    pub fn innovation(&self, z: Double) -> (r: Innovation)
        ensures
            r == self.innovation_of(z),
    {
        Innovation { y: z - self.x, s: self.p00 + self.r }
    }

    pub fn update(&mut self, z: Double) -> (r: Innovation)
        ensures
            r == old(self).innovation_of(z),
            *final(self) == old(self).updated(z),
    {
        let innov = self.innovation(z);
        let k0 = self.p00 / innov.s;
        let k1 = self.p10 / innov.s;

        self.x = self.x + k0 * innov.y;
        self.v = self.v + k1 * innov.y;

        // Old values on the right-hand side.
        let (p00, p01, p10, p11) = (self.p00, self.p01, self.p10, self.p11);
        let kept = Double { bits: ONE } - k0;
        self.p00 = kept * p00;
        self.p01 = kept * p01;
        self.p10 = p10 - k1 * p00;
        self.p11 = p11 - k1 * p01;

        innov
    }

    /// One-sigma position uncertainty, metres.
    pub fn pos_sigma(&self) -> (r: Double)
        ensures
            r == self.position_sigma(),
    {
        self.p00.max(Double { bits: ZERO }).sqrt()
    }

    /// One-sigma velocity uncertainty, metres per second.
    pub fn vel_sigma(&self) -> (r: Double)
        ensures
            r == self.velocity_sigma(),
    {
        self.p11.max(Double { bits: ZERO }).sqrt()
    }
}

impl Kf1D {
    /// Variances and covariances, process and measurement noise are numbers and not
    /// negative.
    pub open spec fn well_posed(self) -> bool {
        let zero = Double { bits: ZERO };
        &&& zero.at_most(self.p00) && self.p00.finite()
        &&& zero.at_most(self.p01) && self.p01.finite()
        &&& zero.at_most(self.p10) && self.p10.finite()
        &&& zero.at_most(self.p11) && self.p11.finite()
        &&& zero.at_most(self.q) && self.q.finite()
        &&& zero.at_most(self.r) && self.r.finite()
    }
}

impl Kf1D {
    pub open spec fn finite_covariance(self) -> bool {
        self.p00.finite() && self.p01.finite() && self.p10.finite() && self.p11.finite()
    }

    /// A measurement takes off the covariance of velocity with position, and off the
    /// variance of velocity, no more than is there. In exact arithmetic this is so of
    /// every covariance; rounding may take off more where the measurement variance is lost
    /// against that of the position.
    pub open spec fn takes_no_more(self, z: Double) -> bool {
        self.velocity_gain(z).times(self.p00).at_most(self.p10) && self.velocity_gain(z).times(
            self.p01,
        ).at_most(self.p11)
    }
}

/// A positive measurement variance makes a positive innovation variance.
pub proof fn lemma_noisy(k: Kf1D, z: Double)
    requires
        k.well_posed(),
        (Double { bits: ZERO }).below(k.r),
    ensures
        (Double { bits: ZERO }).below(k.innovation_of(z).s),
{
    facts::lemma_units_order(0, 0);
    facts::lemma_plus_grows(k.p00, k.r);
}

/// A filter starts out well posed.
pub proof fn law_starts_well_posed(x0: Double, v0: Double, q: Double, r: Double)
    requires
        (Double { bits: ZERO }).at_most(q) && q.finite(),
        (Double { bits: ZERO }).at_most(r) && r.finite(),
    ensures
        Kf1D::initial(x0, v0, q, r).well_posed(),
{
    facts::lemma_units_order(LOOSE_PRIOR as nat, 0);
}

/// Time does not run backwards: a step of zero or less leaves the filter as it is.
pub proof fn law_no_step_back(k: Kf1D, dt: Double)
    requires
        dt.at_most(Double { bits: ZERO }),
    ensures
        k.predicted(dt) == k,
{
}

/// Coasting never narrows the uncertainty, neither of position nor of velocity.
pub proof fn law_coasting_never_narrows(k: Kf1D, dt: Double)
    requires
        k.well_posed(),
        (Double { bits: ZERO }).below(dt),
        dt.times(dt).times(dt).finite(),
    ensures
        k.p00.at_most(k.predicted(dt).p00),
        k.p11.at_most(k.predicted(dt).p11),
        k.position_sigma().at_most(k.predicted(dt).position_sigma()),
        k.velocity_sigma().at_most(k.predicted(dt).velocity_sigma()),
{
    let zero = Double { bits: ZERO };
    let (two, three) = (Double { bits: TWO }, Double { bits: THREE });
    facts::lemma_units_order(0, TWO as nat);
    facts::lemma_units_order(THREE as nat, 0);
    let dt2 = dt.times(dt);
    let dt3 = dt2.times(dt);
    facts::lemma_units_order(dt.magnitude(), 0);
    facts::lemma_times_sign(dt, dt);
    facts::lemma_units_order(dt2.magnitude(), 0);
    assert(dt2.finite() && dt.finite());
    facts::lemma_times_sign(dt2, dt);
    let cross = k.p01.plus(k.p10);
    facts::lemma_plus_grows(k.p01, k.p10);
    facts::lemma_times_sign(dt, cross);
    let a = k.p00.plus(dt.times(cross));
    facts::lemma_plus_grows(k.p00, dt.times(cross));
    facts::lemma_times_sign(dt2, k.p11);
    let b = a.plus(dt2.times(k.p11));
    facts::lemma_plus_grows(a, dt2.times(k.p11));
    facts::lemma_times_sign(k.q, dt3);
    let drift = k.q.times(dt3).over(three);
    facts::lemma_over_sign(k.q.times(dt3), three);
    facts::lemma_plus_grows(b, drift);
    facts::lemma_times_sign(k.q, dt);
    facts::lemma_plus_grows(k.p11, k.q.times(dt));
    facts::lemma_root_order(k.p00.larger(zero), k.predicted(dt).p00.larger(zero));
    facts::lemma_root_order(k.p11.larger(zero), k.predicted(dt).p11.larger(zero));
}

/// Coasting keeps a filter well posed, as long as its covariance stays finite.
pub proof fn law_coasting_keeps_well_posed(k: Kf1D, dt: Double)
    requires
        k.well_posed(),
        k.predicted(dt).finite_covariance(),
    ensures
        k.predicted(dt).well_posed(),
{
    if !dt.at_most(Double { bits: ZERO }) {
        facts::lemma_units_order(0, 0);
        lemma_step_is_short(k, dt);
        law_coasting_never_narrows(k, dt);
        let two = Double { bits: TWO };
        facts::lemma_units_order(TWO as nat, 0);
        let dt2 = dt.times(dt);
        facts::lemma_units_order(dt.magnitude(), 0);
        facts::lemma_times_sign(dt, dt);
        facts::lemma_units_order(dt2.magnitude(), 0);
        assert(dt2.finite() && dt.finite());
        facts::lemma_times_sign(dt, k.p11);
        facts::lemma_times_sign(k.q, dt2);
        let drift = k.q.times(dt2).over(two);
        facts::lemma_over_sign(k.q.times(dt2), two);
        facts::lemma_plus_grows(k.p01, dt.times(k.p11));
        facts::lemma_plus_grows(k.p01.plus(dt.times(k.p11)), drift);
        facts::lemma_plus_grows(k.p10, dt.times(k.p11));
        facts::lemma_plus_grows(k.p10.plus(dt.times(k.p11)), drift);
    }
}

/// A step whose cube is no number leaves a variance that is none.
proof fn lemma_step_is_short(k: Kf1D, dt: Double)
    requires
        !dt.at_most(Double { bits: ZERO }),
        k.predicted(dt).p00.finite(),
    ensures
        dt.times(dt).times(dt).finite(),
        (Double { bits: ZERO }).below(dt),
{
    facts::lemma_units_order(0, 0);
    assert(Double::pack(false, INFINITE as nat).magnitude() == INFINITE);
    assert(Double::pack(true, INFINITE as nat).magnitude() == INFINITE);
    let three = Double { bits: THREE };
    let dt3 = dt.times(dt).times(dt);
    let drift = k.q.times(dt3).over(three);
    assert(drift.finite());
    assert(k.q.times(dt3).finite());
    assert(dt3.finite());
    assert(!dt.nan());
}

/// The longer a filter coasts, the wider its uncertainty.
pub proof fn law_coasting_longer_is_wider(k: Kf1D, dt: Double, longer: Double)
    requires
        k.well_posed(),
        (Double { bits: ZERO }).below(dt),
        dt.at_most(longer),
        longer.times(longer).times(longer).finite(),
    ensures
        k.predicted(dt).p00.at_most(k.predicted(longer).p00),
        k.predicted(dt).p11.at_most(k.predicted(longer).p11),
        k.predicted(dt).position_sigma().at_most(k.predicted(longer).position_sigma()),
        k.predicted(dt).velocity_sigma().at_most(k.predicted(longer).velocity_sigma()),
{
    let zero = Double { bits: ZERO };
    let three = Double { bits: THREE };
    facts::lemma_units_order(0, 0);
    facts::lemma_units_order(THREE as nat, 0);
    facts::lemma_units_order(dt.magnitude(), 0);
    facts::lemma_units_order(longer.magnitude(), 0);
    facts::lemma_units_order(dt.magnitude(), longer.magnitude());
    assert(longer.finite() && dt.finite());
    let (a2, b2) = (dt.times(dt), longer.times(longer));
    facts::lemma_product_order(dt, dt, longer, longer);
    facts::lemma_units_order(a2.magnitude(), b2.magnitude());
    facts::lemma_units_order(a2.magnitude(), 0);
    facts::lemma_units_order(b2.magnitude(), 0);
    assert(b2.finite() && a2.finite());
    let (a3, b3) = (a2.times(dt), b2.times(longer));
    facts::lemma_product_order(a2, dt, b2, longer);
    facts::lemma_units_order(a3.magnitude(), b3.magnitude());
    facts::lemma_units_order(a3.magnitude(), 0);
    facts::lemma_units_order(b3.magnitude(), 0);
    assert(a3.finite());
    let cross = k.p01.plus(k.p10);
    facts::lemma_plus_grows(k.p01, k.p10);
    facts::lemma_product_order(dt, cross, longer, cross);
    let (x, y) = (k.p00.plus(dt.times(cross)), k.p00.plus(longer.times(cross)));
    facts::lemma_sum_order(k.p00, dt.times(cross), k.p00, longer.times(cross));
    facts::lemma_product_order(a2, k.p11, b2, k.p11);
    facts::lemma_sum_order(x, a2.times(k.p11), y, b2.times(k.p11));
    facts::lemma_product_order(k.q, a3, k.q, b3);
    facts::lemma_over_order(k.q.times(a3), k.q.times(b3), three);
    facts::lemma_sum_order(
        x.plus(a2.times(k.p11)),
        k.q.times(a3).over(three),
        y.plus(b2.times(k.p11)),
        k.q.times(b3).over(three),
    );
    facts::lemma_product_order(k.q, dt, k.q, longer);
    facts::lemma_sum_order(k.p11, k.q.times(dt), k.p11, k.q.times(longer));
    let (near, far) = (k.predicted(dt), k.predicted(longer));
    facts::lemma_root_order(near.p00.larger(zero), far.p00.larger(zero));
    facts::lemma_root_order(near.p11.larger(zero), far.p11.larger(zero));
}

/// An accepted measurement never widens an uncertainty, neither of position nor of
/// velocity. Of velocity this speaks where the gain is a number.
pub proof fn law_measuring_never_widens(k: Kf1D, z: Double)
    requires
        k.well_posed(),
        (Double { bits: ZERO }).below(k.innovation_of(z).s),
    ensures
        (Double { bits: ZERO }).at_most(k.updated(z).p00),
        k.updated(z).p00.at_most(k.p00),
        k.updated(z).position_sigma().at_most(k.position_sigma()),
        k.velocity_gain(z).finite() ==> {
            &&& k.updated(z).p11.at_most(k.p11)
            &&& k.updated(z).velocity_sigma().at_most(k.velocity_sigma())
        },
{
    let zero = Double { bits: ZERO };
    lemma_kept(k, z);
    facts::lemma_units_order(0, 0);
    facts::lemma_root_order(k.updated(z).p00.larger(zero), k.p00.larger(zero));
    let k1 = k.velocity_gain(z);
    if k1.finite() {
        lemma_gain_sign(k, z);
        facts::lemma_times_sign(k1, k.p01);
        let x = k1.times(k.p01);
        facts::lemma_units_order(x.magnitude(), 0);
        let (less, none) = (x.negated(), zero.negated());
        assert(less.magnitude() == x.magnitude() && less.value() == -x.value());
        assert(none.magnitude() == 0 && none.value() == 0);
        facts::lemma_plus_order(k.p11, less, none);
        facts::lemma_plus_zero(k.p11, none);
        facts::lemma_root_order(k.updated(z).p11.larger(zero), k.p11.larger(zero));
    }
}

/// What a measurement leaves of the variance of position and of its covariance with
/// velocity is a fraction of it.
proof fn lemma_kept(k: Kf1D, z: Double)
    requires
        k.well_posed(),
        (Double { bits: ZERO }).below(k.innovation_of(z).s),
    ensures
        k.updated(z).p00.finite(),
        0 <= k.updated(z).p00.value() <= k.p00.value(),
        k.updated(z).p01.finite(),
        0 <= k.updated(z).p01.value() <= k.p01.value(),
{
    let one = Double { bits: ONE };
    let s = k.p00.plus(k.r);
    facts::lemma_units_order(0, 0);
    facts::lemma_plus_grows(k.p00, k.r);
    let k0 = k.p00.over(s);
    facts::lemma_over_at_most_one(k.p00, s);
    facts::lemma_one();
    facts::lemma_minus_within(one, k0);
    let kept = one.minus(k0);
    facts::lemma_fraction_shrinks(kept, k.p00);
    facts::lemma_fraction_shrinks(kept, k.p01);
}

/// The gain of the velocity is not negative.
proof fn lemma_gain_sign(k: Kf1D, z: Double)
    requires
        k.well_posed(),
        (Double { bits: ZERO }).below(k.innovation_of(z).s),
    ensures
        !k.velocity_gain(z).nan(),
        k.velocity_gain(z).value() >= 0,
{
    let s = k.innovation_of(z).s;
    facts::lemma_units_order(0, 0);
    facts::lemma_units_order(s.magnitude(), 0);
    if s.infinite() {
        assert(Double::pack(false, 0).magnitude() == 0 && Double::pack(true, 0).magnitude() == 0);
    } else {
        facts::lemma_over_sign(k.p10, s);
    }
}

/// A measurement leaves a filter well posed exactly if what it takes off is not more than
/// what is there: off the covariance of velocity with position, and off the variance of
/// velocity.
pub proof fn law_measuring_keeps_well_posed(k: Kf1D, z: Double)
    requires
        k.well_posed(),
        (Double { bits: ZERO }).below(k.innovation_of(z).s),
    ensures
        k.updated(z).well_posed() <==> k.takes_no_more(z),
{
    facts::lemma_units_order(0, 0);
    lemma_kept(k, z);
    lemma_gain_sign(k, z);
    lemma_taken_off(k.p10, k.velocity_gain(z), k.p00);
    lemma_taken_off(k.p11, k.velocity_gain(z), k.p01);
}

proof fn lemma_taken_off(p: Double, gain: Double, q: Double)
    requires
        p.finite() && p.value() >= 0,
        !gain.nan() && gain.value() >= 0,
        q.finite() && q.value() >= 0,
    ensures
        ({
            let r = p.minus(gain.times(q));
            (Double { bits: ZERO }).at_most(r) && r.finite() <==> gain.times(q).at_most(p)
        }),
{
    let x = gain.times(q);
    facts::lemma_units_order(0, 0);
    facts::lemma_units_order(q.magnitude(), 0);
    facts::lemma_units_order(gain.magnitude(), 0);
    if gain.infinite() && q.magnitude() == 0 {
        assert(x.nan());
    } else {
        facts::lemma_times_sign(gain, q);
        facts::lemma_units_order(x.magnitude(), 0);
        facts::lemma_units_order(x.magnitude(), p.magnitude());
        if x.finite() {
            facts::lemma_minus_sign(p, x);
            if x.value() <= p.value() {
                facts::lemma_minus_within(p, x);
            }
        } else {
            assert(x.negated().infinite());
        }
    }
}

/// A filter stays well posed over a measurement if its covariance is positive
/// semi-definite and the measurement variance is not lost in rounding: it makes the
/// innovation variance larger than that of the position by more than the last bit. The
/// gain of the velocity is to be a number that is held to full precision.
pub proof fn law_a_sound_covariance_stays_well_posed(k: Kf1D, z: Double)
    requires
        k.well_posed(),
        (Double { bits: ZERO }).below(k.innovation_of(z).s),
        k.innovation_of(z).s.finite(),
        k.p01.value() * k.p10.value() <= k.p00.value() * k.p11.value(),
        k.p00.value() * 0x20_0000_0000_0001 <= k.innovation_of(z).s.value()
            * 0x20_0000_0000_0000,
        k.velocity_gain(z).finite(),
        k.velocity_gain(z).magnitude() == 0 || rounding::HIDDEN < k.velocity_gain(z).magnitude(),
    ensures
        k.updated(z).well_posed(),
{
    let s = k.innovation_of(z).s;
    let k1 = k.velocity_gain(z);
    let one = pow2(1074);
    lemma_pow2_pos(1074);
    lemma_gain_sign(k, z);
    facts::lemma_units_order(0, 0);
    facts::lemma_units_order(s.magnitude(), 0);
    facts::lemma_units_order(k1.magnitude(), 0);
    facts::lemma_units_order(k.p10.magnitude(), 0);
    facts::lemma_units_order(k.p00.magnitude(), 0);
    facts::lemma_units_order(k.p01.magnitude(), 0);
    facts::lemma_units_order(k.p11.magnitude(), 0);
    let (a, b, c, e, g) = (
        rounding::units(k.p10.magnitude()) as int,
        rounding::units(k.p00.magnitude()) as int,
        rounding::units(s.magnitude()) as int,
        rounding::units(k.p01.magnitude()) as int,
        rounding::units(k.p11.magnitude()) as int,
    );
    let x = rounding::units(k1.magnitude()) as int;
    assert(a == k.p10.value() && b == k.p00.value() && c == s.value() && e == k.p01.value() && g
        == k.p11.value());
    facts::lemma_rounded_to_nearest(
        k.p10.negative() != s.negative(),
        (a * one) as nat,
        c as nat,
    );
    facts::lemma_rounds_close((a * one) as nat, c as nat, k1.magnitude());
    let (w, v) = (0x20_0000_0000_0000int, 0x20_0000_0000_0001int);
    assert((x * c) * w <= (a * one) * v);
    assert(x * b <= a * one) by (nonlinear_arith)
        requires
            (x * c) * w <= (a * one) * v,
            b * v <= c * w,
            x >= 0,
            v > 0,
            v == 0x20_0000_0000_0001int,
    {
        assert(x * (b * v) <= x * (c * w));
        assert(x * (b * v) == (x * b) * v);
        assert(x * (c * w) == (x * c) * w);
    }
    assert((x * c) * w * e <= (a * one) * v * e) by (nonlinear_arith)
        requires
            (x * c) * w <= (a * one) * v,
            e >= 0,
    ;
    assert((a * one) * v * e == (e * a) * (one * v)) by (nonlinear_arith);
    assert((e * a) * (one * v) <= (b * g) * (one * v)) by (nonlinear_arith)
        requires
            e * a <= b * g,
            one >= 0,
            v >= 0,
    ;
    assert((b * g) * (one * v) == (b * v) * (g * one)) by (nonlinear_arith);
    assert((b * v) * (g * one) <= (c * w) * (g * one)) by (nonlinear_arith)
        requires
            b * v <= c * w,
            g >= 0,
            one >= 0,
    ;
    assert((x * c) * w * e == (c * w) * (x * e)) by (nonlinear_arith);
    assert(x * e <= g * one) by (nonlinear_arith)
        requires
            (c * w) * (x * e) <= (c * w) * (g * one),
            c > 0,
            w > 0,
    {
        let cw = c * w;
        assert(cw > 0);
        let (l, r) = (x * e, g * one);
        assert(l <= r) by (nonlinear_arith)
            requires
                cw * l <= cw * r,
                cw > 0,
        ;
    }
    lemma_product_within(k1, k.p00, k.p10);
    lemma_product_within(k1, k.p01, k.p11);
    law_measuring_keeps_well_posed(k, z);
}

/// A product whose exact value is within a number rounds to within it.
proof fn lemma_product_within(a: Double, b: Double, p: Double)
    requires
        a.finite() && a.value() >= 0,
        b.finite() && b.value() >= 0,
        p.finite() && p.value() >= 0,
        rounding::units(a.magnitude()) * rounding::units(b.magnitude()) <= rounding::units(
            p.magnitude(),
        ) * pow2(1074),
    ensures
        a.times(b).at_most(p),
{
    let one = pow2(1074);
    lemma_pow2_pos(1074);
    let (x, y, u) = (
        rounding::units(a.magnitude()),
        rounding::units(b.magnitude()),
        rounding::units(p.magnitude()),
    );
    facts::lemma_times_sign(a, b);
    facts::lemma_rounded_to_nearest(a.negative() != b.negative(), x * y, one);
    facts::lemma_nearest_exact(p.magnitude(), 1);
    assert(u * 1 == u && (x * y) * 1 == x * y);
    let r = a.times(b).magnitude();
    facts::lemma_nearest_order(x * y, one, r, u, 1, p.magnitude());
    facts::lemma_units_order(r, p.magnitude());
    facts::lemma_units_order(r, 0);
    facts::lemma_units_order(p.magnitude(), 0);
}

} // verus!
