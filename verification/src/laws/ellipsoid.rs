//! The shape of the Earth: the radius of curvature of the WGS84 ellipsoid.
use crate::double::facts;
use crate::double::rounding;
use crate::double::{Double, ONE};
use crate::geo;
use crate::geo::{WGS84_A, WGS84_E2};
use crate::laws::closeness;
use vstd::arithmetic::power2::*;
use vstd::prelude::*;

verus! {

/// The semi-major axis, 6378137 metres, in units of doubles.
pub open spec fn equator() -> int {
    6378137 * closeness::whole()
}

/// The square of the first eccentricity, 0.00669437999014, in units of doubles.
pub open spec fn flatness() -> int {
    0x1b_6b90_f1fe_94f0 * closeness::grain()
}

/// The constants are the numbers that they stand for.
pub proof fn law_constants()
    ensures
        (Double { bits: WGS84_A }).value() == equator(),
        (Double { bits: WGS84_E2 }).value() == flatness(),
        closeness::within(Double { bits: WGS84_A }, 6378137),
        closeness::within(Double { bits: WGS84_E2 }, 1),
        0 < flatness(),
        flatness() * 10000 < 67 * closeness::whole(),
        flatness() * 10000 > 66 * closeness::whole(),
{
    closeness::lemma_grains();
    rounding::lemma_units_at(1044, 0x18_54a6_4000_0000);
    lemma_pow2_adds(30, 1044);
    lemma2_to64_rest();
    lemma2_to64();
    let p = pow2(1044);
    assert(0x18_54a6_4000_0000 * p == 6378137 * (0x4000_0000 * p));
    rounding::lemma_units_at(1014, 0x1b_6b90_f1fe_94f0);
    let (a, e) = (Double { bits: WGS84_A }, Double { bits: WGS84_E2 });
    assert(a.magnitude() == WGS84_A && !a.negative() && a.finite());
    assert(e.magnitude() == WGS84_E2 && !e.negative() && e.finite());
    assert(a.value() == equator());
    assert(e.value() == flatness());
    let g = closeness::grain();
    assert(0 < 0x1b_6b90_f1fe_94f0 * g <= 0x1000_0000_0000_0000 * g);
    assert(facts::size(e.value()) == flatness());
    assert(1 * closeness::whole() == closeness::whole());
}

/// A sine or a cosine is at most one.
pub proof fn lemma_ratio(x: Double)
    requires
        x.magnitude() <= ONE,
    ensures
        closeness::within(x, 1),
{
    facts::lemma_one();
    facts::lemma_units_order(x.magnitude(), ONE as nat);
}

/// Units are many.
pub proof fn lemma_many()
    ensures
        closeness::whole() > 0x200_0000_0000_0000_0000_0000_0000_0000,
{
    closeness::lemma_grains();
    lemma_pow2_adds(62, 952);
    lemma_pow2_pos(952);
    lemma2_to64_rest();
    let (g, p) = (closeness::grain(), pow2(952));
    assert(g == 0x4000_0000_0000_0000 * p);
}

/// The divisor under the root, 1 - e^2 sin^2, is a little less than one.
proof fn lemma_divisor(s: Double)
    requires
        s.magnitude() <= ONE,
    ensures
        ({
            let x = (Double { bits: ONE }).minus(
                (Double { bits: WGS84_E2 }).times(s).times(s),
            );
            let (o, v) = (closeness::whole(), s.value());
            &&& closeness::near(x, o * (o * o) - flatness() * (v * v), o * o, 901)
            &&& 99 * o <= 100 * x.value()
            &&& x.value() <= o
        }),
{
    law_constants();
    lemma_ratio(s);
    closeness::lemma_grains();
    facts::lemma_one();
    facts::lemma_units_order(0, 0);
    let (o, g, v, f) = (closeness::whole(), closeness::grain(), s.value(), flatness());
    let (e, one) = (Double { bits: WGS84_E2 }, Double { bits: ONE });
    let (p, q) = (e.times(s), e.times(s).times(s));
    closeness::lemma_itself(e);
    closeness::lemma_itself(s);
    closeness::lemma_itself(one);
    closeness::lemma_times(e, f, 1, 0, 1, s, v, 1, 0, 1);
    assert(1 * 1 * o == o);
    closeness::lemma_times(p, f * v, o, 130, 2, s, v, 1, 0, 1);
    assert(o * 1 * o == o * o);
    assert((f * v) * v == f * (v * v)) by (nonlinear_arith);
    let w = f * (v * v);
    closeness::lemma_opposite(q, w, o * o, 388);
    let k = o * o;
    assert(k > 0) by (nonlinear_arith)
        requires
            k == o * o,
            o > 0,
    ;
    closeness::lemma_expanded(one, o, 1, 0, k);
    assert(1 * k == k);
    closeness::lemma_plus(one, o * k, 0, 1, q.negated(), -w, 388, 3, k);
    // The product is neither negative nor large.
    closeness::lemma_bounded(v, v, o, o);
    assert(v * v >= 0) by (nonlinear_arith);
    let vv = v * v;
    assert(0 <= w <= f * k) by (nonlinear_arith)
        requires
            w == f * vv,
            0 <= vv <= k,
            f > 0,
    ;
    assert(v >= 0 ==> f * v >= 0) by (nonlinear_arith)
        requires
            f > 0,
    ;
    assert(v <= 0 ==> f * v <= 0) by (nonlinear_arith)
        requires
            f > 0,
    ;
    facts::lemma_times_error(e, s);
    let pv = p.value();
    assert(pv * v >= 0) by (nonlinear_arith)
        requires
            v >= 0 ==> pv >= 0,
            v <= 0 ==> pv <= 0,
    {
        if v >= 0 {
            assert(pv * v >= 0) by (nonlinear_arith)
                requires
                    pv >= 0,
                    v >= 0,
            ;
        } else {
            assert(pv * v >= 0) by (nonlinear_arith)
                requires
                    pv <= 0,
                    v <= 0,
            ;
        }
    }
    facts::lemma_times_error(p, s);
    let qv = q.value();
    assert(qv * k <= w + 388 * (g * k));
    assert(qv <= f + 388 * g) by (nonlinear_arith)
        requires
            qv * k <= f * k + 388 * (g * k),
            k > 0,
    ;
    facts::lemma_minus_within(one, q);
    let x = one.minus(q).value();
    assert(x * k >= o * k - w - 901 * (g * k));
    assert(x >= o - f - 901 * g) by (nonlinear_arith)
        requires
            x * k >= o * k - f * k - 901 * (g * k),
            k > 0,
    ;
}

/// The root of a number just below one.
proof fn lemma_divisor_root(x: Double)
    requires
        x.finite(),
        99 * closeness::whole() <= 100 * x.value(),
        x.value() <= closeness::whole(),
    ensures
        ({
            let (o, r) = (closeness::whole(), x.root().value());
            &&& x.root().finite()
            &&& 99 * o <= 100 * r
            &&& 1000 * r <= 1001 * o
            &&& facts::size(r * r - x.value() * o) * 0x10_0000_0000_0000 <= 3 * (r * r)
        }),
{
    lemma_many();
    facts::lemma_units_order(0, 0);
    facts::lemma_units_order(x.magnitude(), 0);
    let (o, v) = (closeness::whole(), x.value());
    assert(!x.negative());
    let n = (v * o) as nat;
    assert(0 <= v * o <= o * o) by (nonlinear_arith)
        requires
            0 <= v <= o,
    ;
    facts::lemma_root_to_nearest(n);
    let m = x.root().magnitude();
    facts::lemma_power(1);
    let top = 1024 * rounding::HIDDEN as nat;
    lemma_pow2_adds(1, 1074);
    lemma2_to64();
    assert(rounding::units(top) == 2 * o);
    if m > top {
        facts::lemma_units_order(top, (m - 1) as nat);
        facts::lemma_units_order(top, m);
        let y = rounding::halfway((m - 1) as nat) as int;
        assert(y * y >= (4 * o) * (4 * o)) by (nonlinear_arith)
            requires
                y >= 4 * o,
                o > 0,
        ;
        assert((4 * o) * (4 * o) == 16 * (o * o)) by (nonlinear_arith);
        assert(o * o > 0) by (nonlinear_arith)
            requires
                o > 0,
        ;
        assert(false);
    }
    facts::lemma_root_error(x);
    let r = x.root().value();
    let (rr, oo, vo) = (r * r, o * o, v * o);
    assert(100 * vo >= 99 * oo) by (nonlinear_arith)
        requires
            100 * v >= 99 * o,
            vo == v * o,
            oo == o * o,
            o > 0,
    ;
    assert(oo > 0x200_0000_0000_0000_0000_0000_0000_0000 * 2) by (nonlinear_arith)
        requires
            oo == o * o,
            o > 0x200_0000_0000_0000_0000_0000_0000_0000,
    ;
    assert(100 * r >= 99 * o) by (nonlinear_arith)
        requires
            1000 * rr >= 985 * oo,
            rr == r * r,
            oo == o * o,
            r >= 0,
            o > 0,
    ;
    assert(1000 * r <= 1001 * o) by (nonlinear_arith)
        requires
            1000 * rr <= 1001 * oo,
            rr == r * r,
            oo == o * o,
            r >= 0,
            o > 0,
    ;
}

/// The radius of curvature in the prime vertical is that of the ellipsoid: its square times
/// 1 - e^2 sin^2 is the square of the semi-major axis, but for one part in 2^47.
pub proof fn law_curvature(s: Double)
    requires
        s.magnitude() <= ONE,
    ensures
        ({
            let (o, a, v) = (closeness::whole(), equator(), s.value());
            let n = geo::curvature_radius(s).value();
            &&& geo::curvature_radius(s).finite()
            &&& 6_300_000 * o <= n <= 6_500_000 * o
            &&& facts::size(
                (n * n) * (o * (o * o) - flatness() * (v * v)) - ((a * o) * (a * o)) * o,
            ) * 0x8000_0000_0000 <= ((a * o) * (a * o)) * o
        }),
{
    law_constants();
    lemma_many();
    closeness::lemma_grains();
    let x = (Double { bits: ONE }).minus((Double { bits: WGS84_E2 }).times(s).times(s));
    lemma_divisor(s);
    lemma_divisor_root(x);
    let (o, g, a, v) = (closeness::whole(), closeness::grain(), equator(), s.value());
    let (r, d) = (x.root().value(), x.value());
    let radius = geo::curvature_radius(s);
    let semi = Double { bits: WGS84_A };
    facts::lemma_units_order(0, 0);
    facts::lemma_units_order(x.root().magnitude(), 0);
    facts::lemma_units_order(semi.magnitude(), 0);
    assert(x.root().magnitude() > 0);
    assert(!x.root().negative());
    let ao = a * o;
    // The quotient is a number.
    lemma_pow2_adds(24, 1074);
    lemma2_to64();
    assert(a * o <= r * (0x100_0000 * o)) by (nonlinear_arith)
        requires
            a == 6378137 * o,
            100 * r >= 99 * o,
            o > 0,
    ;
    facts::lemma_rounded_to_nearest(false, ao as nat, r as nat);
    facts::lemma_rounds_below(ao as nat, r as nat, radius.magnitude(), 24);
    facts::lemma_over_error(semi, x.root());
    let n = radius.value();
    let w = n * r;
    assert(ao > 0 && r * 0x10_0000_0000_0000 <= ao) by (nonlinear_arith)
        requires
            ao == a * o,
            a == 6378137 * o,
            1000 * r <= 1001 * o,
            o > 0x200_0000_0000_0000_0000_0000_0000_0000,
            r >= 0,
    ;
    assert(facts::size(w - ao) * 0x10_0000_0000_0000 <= ao);
    assert(n >= 0);
    assert(n <= 6_500_000 * o) by (nonlinear_arith)
        requires
            10000 * (n * r) <= 10001 * (a * o),
            a == 6378137 * o,
            100 * r >= 99 * o,
            n >= 0,
            o > 0,
    {
        assert(n * (99 * o) <= n * (100 * r)) by (nonlinear_arith)
            requires
                100 * r >= 99 * o,
                n >= 0,
        ;
        assert(990000 * (n * o) <= 1000100 * (6378137 * o) * o) by (nonlinear_arith)
            requires
                n * (99 * o) <= n * (100 * r),
                10000 * (n * r) <= 10001 * (a * o),
                a == 6378137 * o,
        ;
    }
    assert(n >= 6_300_000 * o) by (nonlinear_arith)
        requires
            10000 * (n * r) >= 9999 * (a * o),
            a == 6378137 * o,
            1000 * r <= 1001 * o,
            n >= 0,
            o > 0,
    {
        assert(n * (1000 * r) <= n * (1001 * o)) by (nonlinear_arith)
            requires
                1000 * r <= 1001 * o,
                n >= 0,
        ;
        assert(10010000 * (n * o) >= 9999000 * (6378137 * o) * o) by (nonlinear_arith)
            requires
                n * (1000 * r) <= n * (1001 * o),
                10000 * (n * r) >= 9999 * (a * o),
                a == 6378137 * o,
        ;
    }
    // The square of the quotient.
    let (aa, ww, nn, rr) = (ao * ao, w * w, n * n, r * r);
    assert(ww - aa == (w - ao) * (w + ao)) by (nonlinear_arith)
        requires
            ww == w * w,
            aa == ao * ao,
    ;
    assert(w >= 0) by (nonlinear_arith)
        requires
            w == n * r,
            n >= 0,
            r >= 0,
    ;
    let z = facts::size(w - ao);
    closeness::lemma_size(w - ao, w + ao);
    assert(z * (w + ao) * 0x10_0000_0000_0000 <= 3 * aa) by (nonlinear_arith)
        requires
            z * 0x10_0000_0000_0000 <= ao,
            0 <= w + ao <= 3 * ao,
            aa == ao * ao,
            z >= 0,
            ao > 0,
    ;
    assert(facts::size(ww - aa) * 0x10_0000_0000_0000 <= 3 * aa);
    assert(ww == nn * rr) by (nonlinear_arith)
        requires
            ww == w * w,
            w == n * r,
            nn == n * n,
            rr == r * r,
    ;
    // The square of the root.
    let y = rr - d * o;
    assert(nn >= 0) by (nonlinear_arith)
        requires
            nn == n * n,
    ;
    closeness::lemma_size(nn, y);
    let sy = facts::size(y);
    assert((nn * sy) * 0x10_0000_0000_0000 <= 3 * (nn * rr)) by (nonlinear_arith)
        requires
            sy * 0x10_0000_0000_0000 <= 3 * rr,
            nn >= 0,
    ;
    let nd = nn * (d * o);
    assert(nn * y == ww - nd) by (nonlinear_arith)
        requires
            ww == nn * rr,
            y == rr - d * o,
            nd == nn * (d * o),
    ;
    assert(facts::size(nd - aa) * 0x10_0000_0000_0000 <= 8 * aa);
    // The divisor.
    let oo = o * o;
    let t = o * oo - flatness() * (v * v);
    let c = d * oo - t;
    assert(facts::size(c) <= 901 * (g * oo));
    closeness::lemma_size(nn, c);
    let sc = facts::size(c);
    assert(nn <= 42_250_000_000_000 * oo) by (nonlinear_arith)
        requires
            nn == n * n,
            oo == o * o,
            0 <= n <= 6_500_000 * o,
    ;
    assert(oo > 0) by (nonlinear_arith)
        requires
            oo == o * o,
            o > 0,
    ;
    let goo = g * oo;
    let most = (42_250_000_000_000 * oo) * (901 * goo);
    assert(nn * sc <= most) by (nonlinear_arith)
        requires
            0 <= nn <= 42_250_000_000_000 * oo,
            0 <= sc <= 901 * goo,
            most == (42_250_000_000_000 * oo) * (901 * goo),
    ;
    let o5 = (oo * oo) * o;
    assert(most * 0x1000_0000_0000_0000 == 38_067_250_000_000_000 * o5) by (nonlinear_arith)
        requires
            most == (42_250_000_000_000 * oo) * (901 * goo),
            goo == g * oo,
            o5 == (oo * oo) * o,
            o == 0x1000_0000_0000_0000 * g,
    ;
    let ao2 = aa * o;
    assert(ao2 == 40_680_631_590_769 * o5) by (nonlinear_arith)
        requires
            ao2 == aa * o,
            aa == ao * ao,
            ao == a * o,
            a == 6378137 * o,
            oo == o * o,
            o5 == (oo * oo) * o,
    ;
    assert(o5 > 0) by (nonlinear_arith)
        requires
            o5 == (oo * oo) * o,
            oo > 0,
            o > 0,
    ;
    let part = nn * sc;
    assert(part * 0x1000_0000_0000_0000 <= 38_067_250_000_000_000 * o5);
    assert(part * 0x10_0000_0000_0000 <= 4 * ao2);
    // Together.
    let b = nd - aa;
    assert(nn * t - ao2 == b * o - nn * c) by (nonlinear_arith)
        requires
            b == nd - aa,
            nd == nn * (d * o),
            ao2 == aa * o,
            c == d * oo - t,
            oo == o * o,
    ;
    closeness::lemma_size(b, o);
    let sb = facts::size(b);
    assert((sb * o) * 0x10_0000_0000_0000 <= 8 * ao2) by (nonlinear_arith)
        requires
            sb * 0x10_0000_0000_0000 <= 8 * aa,
            ao2 == aa * o,
            o > 0,
    ;
}

} // verus!
