//! One axis of the constant-velocity estimator.
use vstd::prelude::*;

verus! {

/// Position, velocity and covariance.
pub struct State {
    pub x: int,
    pub v: int,
    pub p00: int,
    pub p01: int,
    pub p10: int,
    pub p11: int,
}

impl State {
    /// The state after `dt` without a measurement, where `sixth` is a sixth of the process
    /// noise.
    pub open spec fn predicted(self, dt: int, sixth: int) -> State {
        if dt <= 0 {
            self
        } else {
            State {
                x: self.x + self.v * dt,
                v: self.v,
                p00: self.p00 + dt * (self.p01 + self.p10) + (dt * dt) * self.p11 + 2 * (sixth * (dt
                    * (dt * dt))),
                p01: self.p01 + dt * self.p11 + 3 * (sixth * (dt * dt)),
                p10: self.p10 + dt * self.p11 + 3 * (sixth * (dt * dt)),
                p11: self.p11 + 6 * (sixth * dt),
            }
        }
    }
}

/// Two steps make one: coasting for `a` and then for `b` is coasting for both together.
pub proof fn law_two_steps_make_one(k: State, a: int, b: int, sixth: int)
    requires
        a > 0,
        b > 0,
    ensures
        k.predicted(a, sixth).predicted(b, sixth) == k.predicted(a + b, sixth),
{
    let one = k.predicted(a, sixth);
    let (two, both) = (one.predicted(b, sixth), k.predicted(a + b, sixth));
    let (v, p, c, g) = (k.v, k.p11, k.p01 + k.p10, sixth);
    let (aa, ab, bb) = (a * a, a * b, b * b);
    let t = a + b;
    assert(t * t == aa + 2 * ab + bb) by (nonlinear_arith)
        requires
            t == a + b,
            aa == a * a,
            ab == a * b,
            bb == b * b,
    ;
    assert(v * t == v * a + v * b && g * t == g * a + g * b && t * p == a * p + b * p && t * c == a
        * c + b * c) by (nonlinear_arith)
        requires
            t == a + b,
    ;
    assert(g * (t * t) == g * aa + 2 * (g * ab) + g * bb) by (nonlinear_arith)
        requires
            t * t == aa + 2 * ab + bb,
    ;
    assert((t * t) * p == aa * p + 2 * (ab * p) + bb * p) by (nonlinear_arith)
        requires
            t * t == aa + 2 * ab + bb,
    ;
    assert(b * one.p11 == b * p + 6 * (g * ab)) by (nonlinear_arith)
        requires
            one.p11 == p + 6 * (g * a),
            ab == a * b,
    ;
    assert(two.p01 == both.p01 && two.p10 == both.p10);
    assert(two.p11 == both.p11 && two.x == both.x);
    let tt = aa + 2 * ab + bb;
    assert(t * tt == a * aa + 3 * (b * aa) + 3 * (a * bb) + b * bb) by (nonlinear_arith)
        requires
            t == a + b,
            tt == aa + 2 * ab + bb,
            aa == a * a,
            ab == a * b,
            bb == b * b,
    ;
    let (a3, aab, abb, b3) = (a * aa, b * aa, a * bb, b * bb);
    assert(g * (t * (t * t)) == g * a3 + 3 * (g * aab) + 3 * (g * abb) + g * b3) by (nonlinear_arith)
        requires
            t * (t * t) == a3 + 3 * aab + 3 * abb + b3,
    ;
    let cross = one.p01 + one.p10;
    assert(cross == c + 2 * (a * p) + 6 * (g * aa));
    assert(b * cross == b * c + 2 * (ab * p) + 6 * (g * aab)) by (nonlinear_arith)
        requires
            cross == c + 2 * (a * p) + 6 * (g * aa),
            ab == a * b,
            aab == b * aa,
    ;
    assert(bb * one.p11 == bb * p + 6 * (g * abb)) by (nonlinear_arith)
        requires
            one.p11 == p + 6 * (g * a),
            abb == a * bb,
    ;
    assert(two.p00 == both.p00);
}

/// Coasting moves the position along the velocity and leaves the velocity. A variance that
/// has a positive variance of velocity behind it grows, and that of the velocity does not
/// fall.
pub proof fn law_coasting_widens(k: State, a: int, sixth: int)
    requires
        a > 0,
        k.p01 + k.p10 >= 0,
        k.p11 > 0,
        sixth >= 0,
    ensures
        ({
            let after = k.predicted(a, sixth);
            &&& after.x == k.x + k.v * a
            &&& after.v == k.v
            &&& after.p00 > k.p00
            &&& after.p11 >= k.p11
        }),
{
    let c = k.p01 + k.p10;
    assert(a * c >= 0 && a * a > 0 && sixth * a >= 0) by (nonlinear_arith)
        requires
            a > 0,
            c >= 0,
            sixth >= 0,
    ;
    let s = a * a;
    assert(s * k.p11 > 0 && a * s > 0) by (nonlinear_arith)
        requires
            s > 0,
            a > 0,
            k.p11 > 0,
    ;
    let t = a * s;
    assert(sixth * t >= 0) by (nonlinear_arith)
        requires
            sixth >= 0,
            t > 0,
    ;
}

/// Position, velocity and covariance as fractions: each is its field over `d`.
pub struct Estimate {
    pub x: int,
    pub v: int,
    pub p00: int,
    pub p01: int,
    pub p10: int,
    pub p11: int,
    pub d: int,
}

impl Estimate {
    /// The innovation variance, where the measurement variance is `r`.
    pub open spec fn variance(self, r: int) -> int {
        self.p00 + r * self.d
    }

    /// The innovation of the measurement `z`.
    pub open spec fn innovation(self, z: int) -> int {
        z * self.d - self.x
    }

    /// The estimate after the measurement `z` of variance `r`: the gains are `p00` and `p10`
    /// over the innovation variance, which becomes a factor of the denominator.
    pub open spec fn updated(self, z: int, r: int) -> Estimate {
        let (s, y) = (self.variance(r), self.innovation(z));
        Estimate {
            x: self.x * s + self.p00 * y,
            v: self.v * s + self.p10 * y,
            p00: (s - self.p00) * self.p00,
            p01: (s - self.p00) * self.p01,
            p10: self.p10 * s - self.p10 * self.p00,
            p11: self.p11 * s - self.p10 * self.p01,
            d: self.d * s,
        }
    }
}

/// A measurement leaves the position between where it was and where it was measured, and
/// the variance P r / (P + r), which is less than P and than r.
pub proof fn law_measuring_weighs(k: Estimate, z: int, r: int)
    requires
        k.d > 0,
        k.p00 > 0,
        r > 0,
    ensures
        ({
            let (after, s) = (k.updated(z, r), k.variance(r));
            &&& after.d > 0
            &&& k.x <= z * k.d ==> k.x * s <= after.x <= z * after.d
            &&& z * k.d <= k.x ==> z * after.d <= after.x <= k.x * s
            &&& after.p00 * s == (k.p00 * r) * after.d
            &&& 0 < after.p00 < k.p00 * s
            &&& after.p00 < r * after.d
        }),
{
    let (after, s, y) = (k.updated(z, r), k.variance(r), k.innovation(z));
    let (p, d) = (k.p00, k.d);
    let f = r * d;
    assert(f > 0) by (nonlinear_arith)
        requires
            f == r * d,
            r > 0,
            d > 0,
    ;
    assert(after.d > 0) by (nonlinear_arith)
        requires
            after.d == d * s,
            d > 0,
            s > 0,
    ;
    assert(z * (d * s) == (z * d) * s) by (nonlinear_arith);
    assert((z * d) * s - k.x * s == y * s) by (nonlinear_arith)
        requires
            y == z * d - k.x,
    ;
    assert(y * s == p * y + f * y) by (nonlinear_arith)
        requires
            s == p + f,
    ;
    assert(y >= 0 ==> p * y >= 0 && f * y >= 0) by (nonlinear_arith)
        requires
            p > 0,
            f > 0,
    ;
    assert(y <= 0 ==> p * y <= 0 && f * y <= 0) by (nonlinear_arith)
        requires
            p > 0,
            f > 0,
    ;
    assert(after.p00 == f * p);
    assert((f * p) * s == (p * r) * (d * s)) by (nonlinear_arith)
        requires
            f == r * d,
    ;
    assert(0 < f * p && f * p < p * s) by (nonlinear_arith)
        requires
            p > 0,
            f > 0,
            s == p + f,
    ;
    assert(r * (d * s) == f * s) by (nonlinear_arith)
        requires
            f == r * d,
    ;
    assert(f * p < f * s) by (nonlinear_arith)
        requires
            f > 0,
            s > p,
    ;
}

/// What a value takes up of two innovations, one after the other: `c` over `p + p + f`, in
/// units of the common denominator, of each.
proof fn lemma_taken_up(v: int, c: int, p: int, f: int, a: int, b: int)
    ensures
        ({
            let s = p + f;
            (v * s + c * a) * (f * (p + s)) + (f * c) * (s * b - p * a) == (v * s) * (f * (p + s))
                + ((c * f) * s) * (a + b)
        }),
{
    let s = p + f;
    let (m, w) = (c * f, f * (p + s));
    assert((v * s + c * a) * w == (v * s) * w + (c * a) * w) by (nonlinear_arith);
    assert((c * a) * (f * (p + s)) == (c * f) * (p * a) + (c * f) * (s * a)) by (nonlinear_arith);
    assert((f * c) * (s * b - p * a) == (c * f) * (s * b) - (c * f) * (p * a)) by (nonlinear_arith);
    assert(m * (s * a) + m * (s * b) == (m * s) * (a + b)) by (nonlinear_arith);
}

/// Two measurements of one moment may be taken in either order.
pub proof fn law_measurements_commute(k: Estimate, y: int, z: int, r: int)
    ensures
        k.updated(y, r).updated(z, r) == k.updated(z, r).updated(y, r),
{
    lemma_two_measurements(k, y, z, r);
    lemma_two_measurements(k, z, y, r);
}

proof fn lemma_two_measurements(k: Estimate, y: int, z: int, r: int)
    ensures
        ({
            let (p, f) = (k.p00, r * k.d);
            let s = p + f;
            let w = f * (p + s);
            let both = k.innovation(y) + k.innovation(z);
            let after = k.updated(y, r).updated(z, r);
            &&& after.x == (k.x * s) * w + ((p * f) * s) * both
            &&& after.v == (k.v * s) * w + ((k.p10 * f) * s) * both
        }),
{
    let (p, d) = (k.p00, k.d);
    let f = r * d;
    let s = p + f;
    let (a, b) = (k.innovation(y), k.innovation(z));
    let one = k.updated(y, r);
    assert(one.p00 == f * p);
    assert(one.p10 == f * k.p10) by (nonlinear_arith)
        requires
            one.p10 == k.p10 * s - k.p10 * p,
            s == p + f,
    ;
    assert(one.variance(r) == f * (p + s)) by (nonlinear_arith)
        requires
            one.variance(r) == f * p + r * (d * s),
            f == r * d,
    ;
    assert(one.innovation(z) == s * b - p * a) by (nonlinear_arith)
        requires
            one.innovation(z) == z * (d * s) - (k.x * s + p * a),
            b == z * d - k.x,
    ;
    lemma_taken_up(k.x, p, p, f, a, b);
    lemma_taken_up(k.v, k.p10, p, f, a, b);
}

} // verus!
