//! From the local frame back to the Earth.
use crate::double::facts;
use crate::double::rounding;
use crate::double::{Double, ONE};
use crate::geo;
use crate::geo::{Ecef, Enu, Frame, SinCos, POLAR, WGS84_A, WGS84_B, WGS84_E2, WGS84_EP2};
use crate::laws::closeness;
use crate::laws::ellipsoid;
use crate::laws::geometry;
use crate::laws::units;
use vstd::arithmetic::power2::*;
use vstd::prelude::*;

verus! {

/// The Earth-fixed offset of a local position from the origin of its frame, exactly, over
/// the square of one; that along the axis of the Earth is over one.
pub open spec fn offset_x(frame: Frame, p: Enu) -> int {
    let (sl, cl) = (frame.lat.sin.value(), frame.lat.cos.value());
    let (so, co) = (frame.lon.sin.value(), frame.lon.cos.value());
    (cl * co) * p.u.value() - (sl * co) * p.n.value() - (so * p.e.value()) * closeness::whole()
}

pub open spec fn offset_y(frame: Frame, p: Enu) -> int {
    let (sl, cl) = (frame.lat.sin.value(), frame.lat.cos.value());
    let (so, co) = (frame.lon.sin.value(), frame.lon.cos.value());
    (cl * so) * p.u.value() - (sl * so) * p.n.value() + (co * p.e.value()) * closeness::whole()
}

pub open spec fn offset_z(frame: Frame, p: Enu) -> int {
    frame.lat.cos.value() * p.n.value() + frame.lat.sin.value() * p.u.value()
}

/// The Earth-fixed position that is east, north and up of the origin as `p` says.
pub open spec fn is_back(frame: Frame, p: Enu, q: Ecef) -> bool {
    let o = closeness::whole();
    let k = o * o;
    &&& closeness::near(
        q.x,
        frame.origin.x.value() * k + offset_x(frame, p),
        k,
        0x400_0000_0000,
    )
    &&& closeness::near(
        q.y,
        frame.origin.y.value() * k + offset_y(frame, p),
        k,
        0x400_0000_0000,
    )
    &&& closeness::near(
        q.z,
        frame.origin.z.value() * o + offset_z(frame, p),
        o,
        0x400_0000_0000,
    )
}

/// East, north and up of the origin point along the axes of the Earth as they should.
pub proof fn law_back_to_the_earth(frame: Frame, p: Enu)
    requires
        geometry::at_hand(p),
        geometry::nearby(frame.origin),
        geometry::turn(frame.lat),
        geometry::turn(frame.lon),
    ensures
        is_back(frame, p, frame.unrotated(p)),
{
    geometry::lemma_square();
    let (lat, lon, o) = (frame.lat, frame.lon, closeness::whole());
    let k = o * o;
    ellipsoid::lemma_ratio(lat.sin);
    ellipsoid::lemma_ratio(lat.cos);
    ellipsoid::lemma_ratio(lon.sin);
    ellipsoid::lemma_ratio(lon.cos);
    let (sl, cl, so, co) = (
        lat.sin.value(),
        lat.cos.value(),
        lon.sin.value(),
        lon.cos.value(),
    );
    let (e, n, u) = (p.e.value(), p.n.value(), p.u.value());
    geometry::lemma_turned(lon.sin);
    closeness::lemma_itself(lat.sin);
    closeness::lemma_itself(lat.cos);
    closeness::lemma_itself(lon.sin);
    closeness::lemma_itself(lon.cos);
    closeness::lemma_itself(p.e);
    closeness::lemma_itself(p.n);
    closeness::lemma_itself(p.u);
    assert(1 * 1 * o == o);
    let ns = lon.sin.negated();
    // Across the axis.
    closeness::lemma_times(ns, -so, 1, 0, 1, p.e, e, 1, 0, 0x4000_0000);
    closeness::lemma_expanded(ns.times(p.e), (-so) * e, o, 137438953474, o);
    assert(((-so) * e) * o == -((so * e) * o)) by (nonlinear_arith);
    closeness::lemma_times(lon.cos, co, 1, 0, 1, p.e, e, 1, 0, 0x4000_0000);
    closeness::lemma_expanded(lon.cos.times(p.e), co * e, o, 137438953474, o);
    lemma_turned_back(lat.sin, lon.cos, p.n);
    lemma_turned_back(lat.sin, lon.sin, p.n);
    lemma_turned_back(lat.cos, lon.cos, p.u);
    lemma_turned_back(lat.cos, lon.sin, p.u);
    lemma_returned(
        frame.origin.x,
        ns.times(p.e),
        ((-so) * e) * o,
        lat.sin.times(lon.cos).times(p.n),
        (sl * co) * n,
        lat.cos.times(lon.cos).times(p.u),
        (cl * co) * u,
    );
    lemma_returned(
        frame.origin.y,
        lon.cos.times(p.e),
        (co * e) * o,
        lat.sin.times(lon.sin).times(p.n),
        (sl * so) * n,
        lat.cos.times(lon.sin).times(p.u),
        (cl * so) * u,
    );
    // Along the axis.
    closeness::lemma_times(lat.cos, cl, 1, 0, 1, p.n, n, 1, 0, 0x4000_0000);
    closeness::lemma_times(lat.sin, sl, 1, 0, 1, p.u, u, 1, 0, 0x4000_0000);
    let (a, b) = (lat.cos.times(p.n), lat.sin.times(p.u));
    closeness::lemma_plus(
        a,
        cl * n,
        137438953474,
        1073741825,
        b,
        sl * u,
        137438953474,
        1073741825,
        o,
    );
    let z = frame.origin.z;
    closeness::lemma_itself(z);
    closeness::lemma_expanded(z, z.value(), 1, 0, o);
    assert(1 * o == o);
    closeness::lemma_plus(
        z,
        z.value() * o,
        0,
        0x400_0000,
        a.plus(b),
        cl * n + sl * u,
        549755814149,
        2147483651,
        o,
    );
    closeness::lemma_wider(
        frame.unrotated(p).z,
        z.value() * o + offset_z(frame, p),
        o,
        833223656070,
        0x400_0000_0000,
    );
}

/// A local coordinate times two sines or cosines.
proof fn lemma_turned_back(a: Double, b: Double, x: Double)
    requires
        closeness::within(a, 1),
        closeness::within(b, 1),
        closeness::within(x, 0x4000_0000),
    ensures
        ({
            let (r, o) = (a.times(b).times(x), closeness::whole());
            &&& closeness::near(r, (a.value() * b.value()) * x.value(), o * o, 414464344066)
            &&& closeness::within(r, 2147483649)
        }),
{
    geometry::lemma_square();
    let o = closeness::whole();
    closeness::lemma_itself(a);
    closeness::lemma_itself(b);
    closeness::lemma_itself(x);
    closeness::lemma_times(a, a.value(), 1, 0, 1, b, b.value(), 1, 0, 1);
    assert(1 * 1 * o == o);
    let ab = a.times(b);
    closeness::lemma_times(
        ab,
        a.value() * b.value(),
        o,
        130,
        2,
        x,
        x.value(),
        1,
        0,
        0x4000_0000,
    );
    assert(o * 1 * o == o * o);
}

/// A coordinate of the origin and three turned local ones.
proof fn lemma_returned(
    origin: Double,
    a: Double,
    av: int,
    b: Double,
    bv: int,
    c: Double,
    cv: int,
)
    requires
        ({
            let k = closeness::whole() * closeness::whole();
            &&& closeness::within(origin, 0x400_0000)
            &&& closeness::near(a, av, k, 137438953474) && closeness::within(a, 1073741825)
            &&& closeness::near(b, bv, k, 414464344066) && closeness::within(b, 2147483649)
            &&& closeness::near(c, cv, k, 414464344066) && closeness::within(c, 2147483649)
        }),
    ensures
        ({
            let k = closeness::whole() * closeness::whole();
            closeness::near(
                origin.plus(a.minus(b).plus(c)),
                origin.value() * k + (cv - bv + av),
                k,
                0x400_0000_0000,
            )
        }),
{
    geometry::lemma_square();
    let k = closeness::whole() * closeness::whole();
    closeness::lemma_opposite(b, bv, k, 414464344066);
    closeness::lemma_plus(
        a,
        av,
        137438953474,
        1073741825,
        b.negated(),
        -bv,
        414464344066,
        2147483649,
        k,
    );
    let s = a.minus(b);
    closeness::lemma_plus(
        s,
        av - bv,
        964220158213,
        3221225475,
        c,
        cv,
        414464344066,
        2147483649,
        k,
    );
    closeness::lemma_itself(origin);
    closeness::lemma_expanded(origin, origin.value(), 1, 0, k);
    assert(1 * k == k);
    closeness::lemma_plus(
        origin,
        origin.value() * k,
        0,
        0x400_0000,
        s.plus(c),
        av - bv + cv,
        2065879270152,
        5368709125,
        k,
    );
    closeness::lemma_wider(
        origin.plus(s.plus(c)),
        origin.value() * k + (cv - bv + av),
        k,
        2761663972745,
        0x400_0000_0000,
    );
}

/// The semi-minor axis, 6356752.314245179497564 metres, and the square of the second
/// eccentricity, 0.00673949674227643495.
pub proof fn law_smaller_constants()
    ensures
        closeness::near(
            Double { bits: WGS84_B },
            6_356_752_314_245_179_497_564 * closeness::whole(),
            1_000_000_000_000_000,
            0x4000_0000,
        ),
        closeness::near(
            Double { bits: WGS84_EP2 },
            673_949_674_227_643_495 * closeness::whole(),
            100_000_000_000_000_000_000,
            4,
        ),
        closeness::within(Double { bits: WGS84_B }, 6356753),
        closeness::within(Double { bits: WGS84_EP2 }, 1),
{
    closeness::lemma_grains();
    lemma2_to64();
    assert(0x18_3fc4_141c_97d0 * 0x4000_0000 == 7328836442552608657244160) by (nonlinear_arith);
    units::lemma_constant(WGS84_B, 0x18_3fc4_141c_97d0, 30, 0x4000_0000, 7328836442552608657244160);
    units::lemma_fraction(
        Double { bits: WGS84_B },
        7328836442552608657244160,
        6_356_752_314_245_179_497_564,
        1_000_000_000_000_000,
        0x4000_0000,
    );
    assert(0x1b_9adf_e197_dcd2 * 1 == 7770110724398290) by (nonlinear_arith);
    units::lemma_constant(WGS84_EP2, 0x1b_9adf_e197_dcd2, 0, 1, 7770110724398290);
    units::lemma_fraction(
        Double { bits: WGS84_EP2 },
        7770110724398290,
        673_949_674_227_643_495,
        100_000_000_000_000_000_000,
        4,
    );
}

/// The distance from the axis of the Earth is the root of the sum of the squares.
pub proof fn law_distance_from_the_axis(q: Ecef)
    requires
        q.x.finite(),
        q.y.finite(),
        q.radius().finite(),
    ensures
        ({
            let (r, x, y) = (q.radius().value(), q.x.value(), q.y.value());
            &&& r >= 0
            &&& facts::size(r * r - (x * x + y * y)) * 0x10_0000_0000_0000 <= 2 * (r * r)
                + 0x4_0000_0000_0000_0000_0000_0000_0000
        }),
{
    facts::lemma_distance_error(q.x, q.y);
}

/// What is left of a quotient when a number is taken off it: `(alt + n) c` is `r`, over one.
pub open spec fn is_left(alt: int, n: int, c: int, r: int) -> bool {
    let o = closeness::whole();
    facts::size((alt + n) * c - r * o) * 0x20_0000_0000_0000 <= 3 * (r * o) + n * c + 3 * (c
        * 0x10_0000_0000_0000)
}

/// Away from the poles, the altitude and the radius of curvature together, times the cosine
/// of the latitude, are the distance from the axis. At a pole, the altitude and the radius of
/// curvature less its flattening, times the sine, are the distance from the equator.
pub proof fn law_altitude(q: Ecef, lat: SinCos)
    requires
        lat.cos.finite() && lat.sin.finite(),
        q.radius().finite() && q.z.finite(),
        q.altitude(lat).finite(),
        geo::curvature_radius(lat.sin).finite(),
        geo::curvature_radius(lat.sin).value() >= 0,
    ensures
        ({
            let (n, c, alt) = (
                geo::curvature_radius(lat.sin),
                lat.cos.value(),
                q.altitude(lat).value(),
            );
            let level = (Double { bits: ONE }).minus(Double { bits: WGS84_E2 });
            &&& (Double { bits: POLAR }).below(lat.cos) ==> is_left(
                alt,
                n.value(),
                c,
                q.radius().value(),
            )
            &&& !(Double { bits: POLAR }).below(lat.cos.absolute()) && lat.sin.value() != 0
                && n.times(level).finite() && n.times(level).value() >= 0 ==> is_left(
                alt,
                n.times(level).value(),
                facts::size(lat.sin.value()),
                facts::size(q.z.value()),
            )
        }),
{
    facts::lemma_units_order(0, 0);
    facts::lemma_units_order(POLAR as nat, 0);
    facts::lemma_units_order(lat.cos.magnitude(), 0);
    facts::lemma_units_order(lat.sin.magnitude(), 0);
    facts::lemma_units_order(q.radius().magnitude(), 0);
    let n = geo::curvature_radius(lat.sin);
    let level = (Double { bits: ONE }).minus(Double { bits: WGS84_E2 });
    assert(lat.cos.absolute().magnitude() == lat.cos.magnitude());
    assert(lat.sin.absolute().magnitude() == lat.sin.magnitude());
    assert(q.z.absolute().magnitude() == q.z.magnitude());
    if (Double { bits: POLAR }).below(lat.cos) {
        assert(lat.cos.absolute().value() == lat.cos.value());
        let x = q.x.distance(q.y);
        assert(!x.negative()) by {
            facts::lemma_root_to_nearest(
                rounding::units(q.x.magnitude()) * rounding::units(q.x.magnitude())
                    + rounding::units(q.y.magnitude()) * rounding::units(q.y.magnitude()),
            );
        }
        lemma_left(q.radius(), lat.cos, n);
    }
    if !(Double { bits: POLAR }).below(lat.cos.absolute()) && lat.sin.value() != 0 && n.times(
        level,
    ).finite() && n.times(level).value() >= 0 {
        lemma_left(q.z.absolute(), lat.sin.absolute(), n.times(level));
    }
}

proof fn lemma_left(r: Double, c: Double, n: Double)
    requires
        r.finite() && r.value() >= 0,
        c.finite() && c.value() > 0,
        n.finite() && n.value() >= 0,
        r.over(c).minus(n).finite(),
    ensures
        is_left(r.over(c).minus(n).value(), n.value(), c.value(), r.value()),
{
    let (q, m) = (r.over(c), n.negated());
    assert(q.finite());
    facts::lemma_units_order(0, 0);
    assert(m.magnitude() == n.magnitude() && m.value() == -n.value());
    facts::lemma_over_error(r, c);
    facts::lemma_plus_error(q, m);
    let (w, h) = (0x20_0000_0000_0000int, 0x10_0000_0000_0000int);
    let (o, qv, cv, nv, rv) = (
        closeness::whole(),
        q.value(),
        c.value(),
        n.value(),
        r.value(),
    );
    let alt = q.minus(n).value();
    let (a, b) = (alt - (qv - nv), qv * cv - rv * o);
    let (qc, nc, ro) = (qv * cv, nv * cv, rv * o);
    assert((alt + nv) * cv - ro == a * cv + b) by (nonlinear_arith)
        requires
            a == alt - (qv - nv),
            b == qv * cv - ro,
    ;
    closeness::lemma_size(a, cv);
    let sa = facts::size(a);
    assert((sa * cv) * w <= (qv + nv + h) * cv) by (nonlinear_arith)
        requires
            sa * w <= qv + nv + h,
            cv > 0,
    ;
    assert((qv + nv + h) * cv == qc + nc + h * cv) by (nonlinear_arith)
        requires
            qc == qv * cv,
            nc == nv * cv,
    ;
    assert(ro >= 0 && nc >= 0) by (nonlinear_arith)
        requires
            ro == rv * o,
            nc == nv * cv,
            rv >= 0,
            nv >= 0,
            cv > 0,
            o >= 0,
    ;
    assert(h * cv == cv * h && cv * h >= 0);
    let (s1, sb) = (sa * cv, facts::size(b));
    assert(s1 * w <= qc + nc + cv * h);
    assert(sb * w <= ro + cv * h);
}

/// The two numbers whose quotient is the tangent of the parametric latitude: the distance
/// from the equator times the semi-major axis, and that from the axis of the Earth times the
/// semi-minor one.
pub open spec fn is_parametric(q: Ecef, r: (Double, Double)) -> bool {
    let t = 0x200_0000_0000_0000int;
    &&& closeness::near(r.0, q.z.value() * 6378137, 1, t)
    &&& closeness::near(
        r.1,
        q.radius().value() * 6_356_752_314_245_179_497_564,
        1_000_000_000_000_000,
        t,
    )
}

pub proof fn law_parametric_latitude(q: Ecef)
    requires
        closeness::within(q.z, 0x200_0000),
        closeness::within(q.radius(), 0x200_0000),
    ensures
        is_parametric(
            q,
            (q.z.times(Double { bits: WGS84_A }), q.radius().times(Double { bits: WGS84_B })),
        ),
{
    closeness::lemma_grains();
    ellipsoid::law_constants();
    law_smaller_constants();
    let o = closeness::whole();
    let (a, b) = (Double { bits: WGS84_A }, Double { bits: WGS84_B });
    let (z, r) = (q.z, q.radius());
    let (zv, rv) = (z.value(), r.value());
    closeness::lemma_itself(z);
    closeness::lemma_itself(r);
    closeness::lemma_itself(a);
    closeness::lemma_times(z, zv, 1, 0, 0x200_0000, a, 6378137 * o, 1, 0, 6378137);
    assert(zv * (6378137 * o) == (zv * 6378137) * o) by (nonlinear_arith);
    assert(1 * 1 * o == 1 * o);
    closeness::lemma_reduced(z.times(a), zv * 6378137, 1, 27393889824407554, o);
    closeness::lemma_wider(z.times(a), zv * 6378137, 1, 27393889824407554, 0x200_0000_0000_0000);
    let m = 6_356_752_314_245_179_497_564int;
    let d = 1_000_000_000_000_000int;
    closeness::lemma_times(r, rv, 1, 0, 0x200_0000, b, m * o, d, 0x4000_0000, 6356753);
    assert(rv * (m * o) == (rv * m) * o) by (nonlinear_arith);
    assert(1 * d * o == d * o);
    closeness::lemma_reduced(r.times(b), rv * m, d, 63330843262713858, o);
    closeness::lemma_wider(r.times(b), rv * m, d, 63330843262713858, 0x200_0000_0000_0000);
}

/// The two numbers whose quotient is the tangent of the latitude: the distance from the
/// equator and 42841.3 metres (e'^2 b) times the cube of the sine of the parametric latitude,
/// and the distance from the axis of the Earth less 42697.7 metres (e^2 a) times the cube of
/// its cosine.
pub open spec fn is_latitude(q: Ecef, theta: SinCos, r: (Double, Double)) -> bool {
    let (o, s, c) = (closeness::whole(), theta.sin.value(), theta.cos.value());
    let m = 673_949_674_227_643_495 * 6_356_752_314_245_179_497_564;
    let d = 100_000_000_000_000_000_000 * 1_000_000_000_000_000;
    let k = o * o;
    &&& closeness::near(
        r.0,
        q.z.value() * (d * k) + m * (s * (s * s)),
        d * k,
        0x8_0000_0000,
    )
    &&& closeness::near(
        r.1,
        q.radius().value() * (k * o) - (ellipsoid::flatness() * 6378137) * (c * (c * c)),
        k * o,
        0x8_0000_0000,
    )
}

pub proof fn law_latitude(q: Ecef, theta: SinCos)
    requires
        closeness::within(q.z, 0x400_0000),
        closeness::within(q.radius(), 0x400_0000),
        geometry::turn(theta),
    ensures
        is_latitude(
            q,
            theta,
            (
                q.z.plus(
                    (Double { bits: WGS84_EP2 }).times(Double { bits: WGS84_B }).times(
                        geo::cube(theta.sin),
                    ),
                ),
                q.radius().minus(
                    (Double { bits: WGS84_E2 }).times(Double { bits: WGS84_A }).times(
                        geo::cube(theta.cos),
                    ),
                ),
            ),
        ),
{
    closeness::lemma_grains();
    geometry::lemma_square();
    ellipsoid::law_constants();
    law_smaller_constants();
    ellipsoid::lemma_ratio(theta.sin);
    ellipsoid::lemma_ratio(theta.cos);
    let o = closeness::whole();
    let k = o * o;
    lemma_cubed(theta.sin);
    lemma_cubed(theta.cos);
    let (s, c) = (theta.sin.value(), theta.cos.value());
    let (cs, cc) = (s * (s * s), c * (c * c));
    // North or south.
    let (ep, b) = (Double { bits: WGS84_EP2 }, Double { bits: WGS84_B });
    let (en, ed) = (673_949_674_227_643_495int, 100_000_000_000_000_000_000int);
    let (bn, bd) = (6_356_752_314_245_179_497_564int, 1_000_000_000_000_000int);
    closeness::lemma_times(ep, en * o, ed, 4, 1, b, bn * o, bd, 0x4000_0000, 6356753);
    let (m, d) = (en * bn, ed * bd);
    assert((en * o) * (bn * o) == (m * o) * o) by (nonlinear_arith)
        requires
            m == en * bn,
    ;
    let w = ep.times(b);
    closeness::lemma_reduced(w, m * o, d, 1912833222, o);
    closeness::lemma_times(w, m * o, d, 1912833222, 6356754, geo::cube(theta.sin), cs, k, 388, 3);
    assert((m * o) * cs == (m * cs) * o) by (nonlinear_arith);
    let y = w.times(geo::cube(theta.sin));
    closeness::lemma_reduced(y, m * cs, d * k, 10645913756, o);
    let z = q.z;
    let dk = d * k;
    assert(dk > 0) by (nonlinear_arith)
        requires
            dk == d * k,
            d > 0,
            k > 0,
    ;
    closeness::lemma_itself(z);
    closeness::lemma_expanded(z, z.value(), 1, 0, dk);
    assert(1 * dk == dk);
    closeness::lemma_plus(z, z.value() * dk, 0, 0x400_0000, y, m * cs, 10645913756, 19070263, dk);
    closeness::lemma_wider(z.plus(y), z.value() * dk + m * cs, dk, 21676842013, 0x8_0000_0000);
    // Off the axis.
    let (e, a) = (Double { bits: WGS84_E2 }, Double { bits: WGS84_A });
    let f = ellipsoid::flatness();
    closeness::lemma_itself(e);
    closeness::lemma_itself(a);
    closeness::lemma_times(e, f, 1, 0, 1, a, 6378137 * o, 1, 0, 6378137);
    assert(f * (6378137 * o) == (f * 6378137) * o) by (nonlinear_arith);
    assert(1 * 1 * o == 1 * o);
    let v = e.times(a);
    let fa = f * 6378137;
    closeness::lemma_reduced(v, fa, 1, 816401538, o);
    closeness::lemma_times(v, fa, 1, 816401538, 6378138, geo::cube(theta.cos), cc, k, 388, 3);
    let x = v.times(geo::cube(theta.cos));
    let ko = k * o;
    assert(1 * k * o == ko);
    assert(ko > 0) by (nonlinear_arith)
        requires
            ko == k * o,
            k > 0,
            o > 0,
    ;
    closeness::lemma_opposite(x, fa * cc, ko, 7373127152);
    let r = q.radius();
    closeness::lemma_itself(r);
    closeness::lemma_expanded(r, r.value(), 1, 0, ko);
    assert(1 * ko == ko);
    closeness::lemma_plus(
        r,
        r.value() * ko,
        0,
        0x400_0000,
        x.negated(),
        -(fa * cc),
        7373127152,
        19134415,
        ko,
    );
    closeness::lemma_wider(
        r.minus(x),
        r.value() * ko - fa * cc,
        ko,
        18412266865,
        0x8_0000_0000,
    );
}

/// The cube of a sine or cosine.
proof fn lemma_cubed(x: Double)
    requires
        closeness::within(x, 1),
    ensures
        ({
            let (o, v) = (closeness::whole(), x.value());
            &&& closeness::near(geo::cube(x), v * (v * v), o * o, 388)
            &&& closeness::within(geo::cube(x), 3)
        }),
{
    geometry::lemma_square();
    let (o, v) = (closeness::whole(), x.value());
    closeness::lemma_itself(x);
    closeness::lemma_times(x, v, 1, 0, 1, x, v, 1, 0, 1);
    assert(1 * 1 * o == o);
    closeness::lemma_times(x, v, 1, 0, 1, x.times(x), v * v, o, 130, 2);
    assert(1 * o * o == o * o);
}

/// A factor of a sum of three products.
proof fn lemma_spread(a: int, b: int, x: int, c: int, y: int, d: int, z: int, o: int)
    ensures
        a * (b * x + c * y + (d * z) * o) == (a * b) * x + (a * c) * y + (a * d) * (z * o),
{
    let (p, q, r) = (b * x, c * y, (d * z) * o);
    assert(a * p == (a * b) * x) by (nonlinear_arith)
        requires
            p == b * x,
    ;
    assert(a * q == (a * c) * y) by (nonlinear_arith)
        requires
            q == c * y,
    ;
    assert(a * r == (a * d) * (z * o)) by (nonlinear_arith)
        requires
            r == (d * z) * o,
    ;
    assert(a * (p + q + r) == a * p + a * q + a * r) by (nonlinear_arith);
}

/// Across the axis: the turn of a turned offset is the offset.
proof fn lemma_turned_twice(
    e: int,
    n: int,
    u: int,
    sl: int,
    cl: int,
    so: int,
    co: int,
    dx: int,
    dy: int,
    dz: int,
    o: int,
    k: int,
    g: int,
)
    requires
        o > 0 && g > 0 && k == o * o,
        facts::size(sl) <= o && facts::size(cl) <= o && facts::size(so) <= o && facts::size(co)
            <= o,
        facts::size(dx) <= 0x800_0000 * o && facts::size(dy) <= 0x800_0000 * o,
        facts::size(so * so + co * co - o * o) <= 1024 * (g * o),
        facts::size(sl * sl + cl * cl - o * o) <= 1024 * (g * o),
        facts::size(e * o - (co * dy - so * dx)) <= 0x20_0000_0000 * (g * o),
        facts::size(n * k - ((cl * dz) * o - (sl * co) * dx - (sl * so) * dy)) <= 0x80_0000_0000 * (
        g * k),
        facts::size(u * k - ((cl * co) * dx + (cl * so) * dy + (sl * dz) * o)) <= 0x80_0000_0000 * (
        g * k),
    ensures
        facts::size(((cl * co) * u - (sl * co) * n - (so * e) * o) * k - dx * (k * k))
            <= 0x200_0000_0000 * (g * (k * k)),
{
    let (a, b) = (cl * co, sl * co);
    let (f, h) = (cl * so, sl * so);
    let (pe, pn, pu) = (
        co * dy - so * dx,
        (cl * dz) * o - b * dx - h * dy,
        a * dx + f * dy + (sl * dz) * o,
    );
    let (de, dn, du) = (e * o - pe, n * k - pn, u * k - pu);
    let (c, q) = (so * so + co * co - o * o, sl * sl + cl * cl - o * o);
    let kk = k * k;
    let sk = so * k;
    let w = a * u - b * n - (so * e) * o;
    // What the errors leave.
    assert(w * k == a * (u * k) - b * (n * k) - sk * (e * o)) by {
        let (w1, w2, w3) = (a * u, b * n, (so * e) * o);
        assert(w1 * k == a * (u * k)) by (nonlinear_arith)
            requires
                w1 == a * u,
        ;
        assert(w2 * k == b * (n * k)) by (nonlinear_arith)
            requires
                w2 == b * n,
        ;
        assert(w3 * k == sk * (e * o)) by (nonlinear_arith)
            requires
                w3 == (so * e) * o,
                sk == so * k,
        ;
        assert((w1 - w2 - w3) * k == w1 * k - w2 * k - w3 * k) by (nonlinear_arith);
    }
    assert(a * (u * k) == a * du + a * pu) by (nonlinear_arith)
        requires
            du == u * k - pu,
    ;
    assert(b * (n * k) == b * dn + b * pn) by (nonlinear_arith)
        requires
            dn == n * k - pn,
    ;
    assert(sk * (e * o) == sk * de + sk * pe) by (nonlinear_arith)
        requires
            de == e * o - pe,
    ;
    closeness::lemma_bounded(cl, co, o, o);
    closeness::lemma_bounded(sl, co, o, o);
    closeness::lemma_bounded(so, co, o, o);
    closeness::lemma_bounded(co, co, o, o);
    closeness::lemma_bounded(so, k, o, k);
    closeness::lemma_bounded(a, du, k, 0x80_0000_0000 * (g * k));
    closeness::lemma_bounded(b, dn, k, 0x80_0000_0000 * (g * k));
    closeness::lemma_bounded(sk, de, o * k, 0x20_0000_0000 * (g * o));
    let gk = g * kk;
    assert(k * (0x80_0000_0000 * (g * k)) == 0x80_0000_0000 * gk) by (nonlinear_arith)
        requires
            gk == g * kk,
            kk == k * k,
    ;
    assert((o * k) * (0x20_0000_0000 * (g * o)) == 0x20_0000_0000 * gk) by (nonlinear_arith)
        requires
            gk == g * kk,
            kk == k * k,
            k == o * o,
    ;
    // The exact part.
    let (cc, sc) = (co * co, so * co);
    let (ll, ss) = (cl * cl + sl * sl, so * so);
    lemma_spread(a, a, dx, f, dy, sl, dz, o);
    lemma_spread(b, -b, dx, -h, dy, cl, dz, o);
    assert((-b) * dx == -(b * dx) && (-h) * dy == -(h * dy)) by (nonlinear_arith);
    assert((b * (-b)) * dx == -((b * b) * dx) && (b * (-h)) * dy == -((b * h) * dy))
        by (nonlinear_arith);
    assert(sk * pe == (sk * co) * dy - (sk * so) * dx) by (nonlinear_arith)
        requires
            pe == co * dy - so * dx,
    ;
    assert(a * sl == b * cl) by (nonlinear_arith)
        requires
            a == cl * co,
            b == sl * co,
    ;
    assert(a * a == (cl * cl) * cc && b * b == (sl * sl) * cc) by (nonlinear_arith)
        requires
            a == cl * co,
            b == sl * co,
            cc == co * co,
    ;
    assert(a * f == (cl * cl) * sc && b * h == (sl * sl) * sc) by (nonlinear_arith)
        requires
            a == cl * co,
            b == sl * co,
            f == cl * so,
            h == sl * so,
            sc == so * co,
    ;
    assert(sk * co == k * sc && sk * so == k * ss) by (nonlinear_arith)
        requires
            sk == so * k,
            sc == so * co,
            ss == so * so,
    ;
    let (l1, l2) = (cl * cl, sl * sl);
    assert((l1 * cc) * dx + (l2 * cc) * dx + (k * ss) * dx == dx * kk + (k * dx) * c + (cc * dx)
        * q) by (nonlinear_arith)
        requires
            c == ss + cc - k,
            q == l2 + l1 - k,
            kk == k * k,
    ;
    assert((l1 * sc) * dy + (l2 * sc) * dy - (k * sc) * dy == (sc * dy) * q) by (nonlinear_arith)
        requires
            q == l2 + l1 - k,
    ;
    closeness::lemma_bounded(k, dx, k, 0x800_0000 * o);
    closeness::lemma_bounded(cc, dx, k, 0x800_0000 * o);
    closeness::lemma_bounded(sc, dy, k, 0x800_0000 * o);
    let most = k * (0x800_0000 * o);
    closeness::lemma_bounded(k * dx, c, most, 1024 * (g * o));
    closeness::lemma_bounded(cc * dx, q, most, 1024 * (g * o));
    closeness::lemma_bounded(sc * dy, q, most, 1024 * (g * o));
    assert(most * (1024 * (g * o)) == 0x20_0000_0000 * gk) by (nonlinear_arith)
        requires
            most == k * (0x800_0000 * o),
            gk == g * kk,
            kk == k * k,
            k == o * o,
    ;
}

/// Along the axis.
proof fn lemma_risen_twice(
    n: int,
    u: int,
    sl: int,
    cl: int,
    so: int,
    co: int,
    dx: int,
    dy: int,
    dz: int,
    o: int,
    k: int,
    g: int,
)
    requires
        o > 0 && g > 0 && k == o * o,
        facts::size(sl) <= o && facts::size(cl) <= o,
        facts::size(dz) <= 0x800_0000 * o,
        facts::size(sl * sl + cl * cl - o * o) <= 1024 * (g * o),
        facts::size(n * k - ((cl * dz) * o - (sl * co) * dx - (sl * so) * dy)) <= 0x80_0000_0000 * (
        g * k),
        facts::size(u * k - ((cl * co) * dx + (cl * so) * dy + (sl * dz) * o)) <= 0x80_0000_0000 * (
        g * k),
    ensures
        facts::size((cl * n + sl * u) * k - dz * (o * k)) <= 0x200_0000_0000 * (g * (o * k)),
{
    let (pn, pu) = (
        (cl * dz) * o - (sl * co) * dx - (sl * so) * dy,
        (cl * co) * dx + (cl * so) * dy + (sl * dz) * o,
    );
    let (dn, du) = (n * k - pn, u * k - pu);
    let q = sl * sl + cl * cl - o * o;
    let w = cl * n + sl * u;
    assert(w * k == (cl * dn + cl * pn) + (sl * du + sl * pu)) by {
        let (w1, w2) = (cl * n, sl * u);
        assert(w1 * k == cl * dn + cl * pn) by (nonlinear_arith)
            requires
                w1 == cl * n,
                dn == n * k - pn,
        ;
        assert(w2 * k == sl * du + sl * pu) by (nonlinear_arith)
            requires
                w2 == sl * u,
                du == u * k - pu,
        ;
        assert((w1 + w2) * k == w1 * k + w2 * k) by (nonlinear_arith);
    }
    let (zo, cx, cy) = (dz * o, co * dx, so * dy);
    let (b, h) = (sl * co, sl * so);
    let (a, f) = (cl * co, cl * so);
    lemma_spread(cl, -b, dx, -h, dy, cl, dz, o);
    lemma_spread(sl, a, dx, f, dy, sl, dz, o);
    assert((-b) * dx == -(b * dx) && (-h) * dy == -(h * dy)) by (nonlinear_arith);
    assert((cl * (-b)) * dx == -((cl * sl) * cx)) by (nonlinear_arith)
        requires
            b == sl * co,
            cx == co * dx,
    ;
    assert((cl * (-h)) * dy == -((cl * sl) * cy)) by (nonlinear_arith)
        requires
            h == sl * so,
            cy == so * dy,
    ;
    assert((sl * a) * dx == (cl * sl) * cx) by (nonlinear_arith)
        requires
            a == cl * co,
            cx == co * dx,
    ;
    assert((sl * f) * dy == (cl * sl) * cy) by (nonlinear_arith)
        requires
            f == cl * so,
            cy == so * dy,
    ;
    let (l1, l2) = (cl * cl, sl * sl);
    assert(l1 * zo + l2 * zo == zo * q + dz * (o * k)) by (nonlinear_arith)
        requires
            q == l2 + l1 - k,
            zo == dz * o,
    ;
    let gk = g * (o * k);
    closeness::lemma_bounded(cl, dn, o, 0x80_0000_0000 * (g * k));
    closeness::lemma_bounded(sl, du, o, 0x80_0000_0000 * (g * k));
    closeness::lemma_bounded(dz, o, 0x800_0000 * o, o);
    closeness::lemma_bounded(zo, q, (0x800_0000 * o) * o, 1024 * (g * o));
    assert(o * (0x80_0000_0000 * (g * k)) == 0x80_0000_0000 * gk) by (nonlinear_arith)
        requires
            gk == g * (o * k),
    ;
    assert(((0x800_0000 * o) * o) * (1024 * (g * o)) == 0x20_0000_0000 * gk) by (nonlinear_arith)
        requires
            gk == g * (o * k),
            k == o * o,
    ;
}

/// What two bounds over a common factor come to without it.
proof fn lemma_returned_to(v: int, q: int, origin: int, d: int, w: int, f: int, k: int, g: int)
    requires
        f > 0 && k > 0 && g > 0,
        d == q - origin,
        facts::size(v * f - (origin * f + w)) <= 0x400_0000_0000 * (g * f),
        facts::size(w * k - d * (f * k)) <= 0x200_0000_0000 * (g * (f * k)),
    ensures
        facts::size(v - q) <= 0x800_0000_0000 * g,
{
    let fk = f * k;
    let (a, b, z) = (v * f - (origin * f + w), w * k - d * fk, v - q);
    closeness::lemma_bounded(a, k, 0x400_0000_0000 * (g * f), k);
    assert((0x400_0000_0000 * (g * f)) * k == 0x400_0000_0000 * (g * fk)) by (nonlinear_arith)
        requires
            fk == f * k,
    ;
    assert(z * fk == a * k + b) by (nonlinear_arith)
        requires
            a == v * f - (origin * f + w),
            b == w * k - d * fk,
            z == v - q,
            d == q - origin,
            fk == f * k,
    ;
    assert(fk > 0) by (nonlinear_arith)
        requires
            fk == f * k,
            f > 0,
            k > 0,
    ;
    closeness::lemma_size(z, fk);
    let s = facts::size(z);
    assert(g * fk > 0) by (nonlinear_arith)
        requires
            g > 0,
            fk > 0,
    ;
    assert(s <= 0x800_0000_0000 * g) by (nonlinear_arith)
        requires
            s * fk <= 0x800_0000_0000 * (g * fk),
            fk > 0,
    ;
}

/// There and back: a position in a frame, taken back to the axes of the Earth, is where it
/// was, to some micrometres.
pub proof fn law_there_and_back(frame: Frame, q: Ecef)
    requires
        geometry::nearby(q),
        geometry::nearby(frame.origin),
        geometry::circle(frame.lat),
        geometry::circle(frame.lon),
    ensures
        ({
            let (r, t) = (frame.unrotated(frame.rotated(q)), 0x800_0000_0000 * closeness::grain());
            &&& facts::size(r.x.value() - q.x.value()) <= t
            &&& facts::size(r.y.value() - q.y.value()) <= t
            &&& facts::size(r.z.value() - q.z.value()) <= t
        }),
{
    closeness::lemma_grains();
    geometry::lemma_square();
    let p = frame.rotated(q);
    geometry::law_local_coordinates(frame, q);
    law_back_to_the_earth(frame, p);
    let (lat, lon) = (frame.lat, frame.lon);
    ellipsoid::lemma_ratio(lat.sin);
    ellipsoid::lemma_ratio(lat.cos);
    ellipsoid::lemma_ratio(lon.sin);
    ellipsoid::lemma_ratio(lon.cos);
    let (o, g) = (closeness::whole(), closeness::grain());
    let k = o * o;
    let (sl, cl, so, co) = (
        lat.sin.value(),
        lat.cos.value(),
        lon.sin.value(),
        lon.cos.value(),
    );
    let (e, n, u) = (p.e.value(), p.n.value(), p.u.value());
    let (dx, dy, dz) = (
        q.x.value() - frame.origin.x.value(),
        q.y.value() - frame.origin.y.value(),
        q.z.value() - frame.origin.z.value(),
    );
    let r = frame.unrotated(p);
    lemma_turned_twice(e, n, u, sl, cl, so, co, dx, dy, dz, o, k, g);
    lemma_returned_to(
        r.x.value(),
        q.x.value(),
        frame.origin.x.value(),
        dx,
        offset_x(frame, p),
        k,
        k,
        g,
    );
    // The second axis is the first, a quarter turn on.
    let (s2, c2, x2, y2) = (-co, so, dy, -dx);
    assert(c2 * y2 - s2 * x2 == co * dy - so * dx) by (nonlinear_arith)
        requires
            s2 == -co,
            c2 == so,
            x2 == dy,
            y2 == -dx,
    ;
    assert((sl * c2) * x2 == (sl * so) * dy && (sl * s2) * y2 == (sl * co) * dx) by (nonlinear_arith)
        requires
            s2 == -co,
            c2 == so,
            x2 == dy,
            y2 == -dx,
    ;
    assert((cl * c2) * x2 == (cl * so) * dy && (cl * s2) * y2 == (cl * co) * dx) by (nonlinear_arith)
        requires
            s2 == -co,
            c2 == so,
            x2 == dy,
            y2 == -dx,
    ;
    assert(s2 * s2 == co * co) by (nonlinear_arith)
        requires
            s2 == -co,
    ;
    lemma_turned_twice(e, n, u, sl, cl, s2, c2, x2, y2, dz, o, k, g);
    assert((s2 * e) * o == -((co * e) * o)) by (nonlinear_arith)
        requires
            s2 == -co,
    ;
    lemma_returned_to(
        r.y.value(),
        q.y.value(),
        frame.origin.y.value(),
        dy,
        offset_y(frame, p),
        k,
        k,
        g,
    );
    lemma_risen_twice(n, u, sl, cl, so, co, dx, dy, dz, o, k, g);
    lemma_returned_to(
        r.z.value(),
        q.z.value(),
        frame.origin.z.value(),
        dz,
        offset_z(frame, p),
        o,
        k,
        g,
    );
}

/// The distance from the axis of a point that is `p` off it, over one.
proof fn lemma_off_axis(
    x: int,
    y: int,
    r: int,
    p: int,
    co: int,
    so: int,
    o: int,
    k: int,
    g: int,
)
    requires
        g > 0 && o == 0x1000_0000_0000_0000 * g && k == o * o,
        o > 0x200_0000_0000_0000_0000_0000_0000_0000,
        facts::size(x * k - p * co) <= 0x4_0000_0000 * (g * k),
        facts::size(y * k - p * so) <= 0x4_0000_0000 * (g * k),
        facts::size(co) <= o && facts::size(so) <= o,
        facts::size(so * so + co * co - o * o) <= 1024 * (g * o),
        4096 * k <= p <= 0x200_0000 * k,
        r >= 0,
        facts::size(r * r - (x * x + y * y)) * 0x10_0000_0000_0000 <= 2 * (r * r)
            + 0x4_0000_0000_0000_0000_0000_0000_0000,
    ensures
        facts::size(r * o - p) <= 0x40_0000_0000 * (g * o),
{
    let (gk, t) = (g * k, 0x4_0000_0000 * (g * k));
    let (a, b) = (x * k - p * co, y * k - p * so);
    let c = so * so + co * co - o * o;
    let (rk, po) = (r * k, p * o);
    assert(k > 0 && po > 0 && gk > 0) by (nonlinear_arith)
        requires
            k == o * o,
            o > 0,
            g > 0,
            4096 * k <= p,
            po == p * o,
            gk == g * k,
    {
        assert(o * o > 0);
        assert(p > 0);
    }
    let m = po * gk;
    let kk = k * k;
    // The squares of the coordinates.
    let (xk, yk) = (x * k, y * k);
    assert(xk * xk == (p * p) * (co * co) + 2 * (p * (co * a)) + a * a) by (nonlinear_arith)
        requires
            xk == a + p * co,
    ;
    assert(yk * yk == (p * p) * (so * so) + 2 * (p * (so * b)) + b * b) by (nonlinear_arith)
        requires
            yk == b + p * so,
    ;
    let (pp, sum) = (p * p, xk * xk + yk * yk);
    let (cc, ss) = (co * co, so * so);
    assert(pp * cc + pp * ss == pp * c + pp * k) by (nonlinear_arith)
        requires
            c == ss + cc - k,
    ;
    assert(pp * k == po * po) by (nonlinear_arith)
        requires
            pp == p * p,
            po == p * o,
            k == o * o,
    ;
    closeness::lemma_bounded(co, a, o, t);
    closeness::lemma_bounded(so, b, o, t);
    closeness::lemma_bounded(p, co * a, p, o * t);
    closeness::lemma_bounded(p, so * b, p, o * t);
    closeness::lemma_bounded(a, a, t, t);
    closeness::lemma_bounded(b, b, t, t);
    assert(p * (o * t) == 0x4_0000_0000 * m) by (nonlinear_arith)
        requires
            t == 0x4_0000_0000 * gk,
            m == po * gk,
            po == p * o,
    ;
    closeness::lemma_bounded(p, p, p, 0x200_0000 * k);
    closeness::lemma_bounded(pp, c, p * (0x200_0000 * k), 1024 * (g * o));
    assert((p * (0x200_0000 * k)) * (1024 * (g * o)) == 0x8_0000_0000 * m) by (nonlinear_arith)
        requires
            m == po * gk,
            po == p * o,
            gk == g * k,
    ;
    let low = (4096 * k) * o;
    assert(po >= low) by (nonlinear_arith)
        requires
            po == p * o,
            p >= 4096 * k,
            low == (4096 * k) * o,
            o > 0,
    ;
    assert(m >= low * gk) by (nonlinear_arith)
        requires
            m == po * gk,
            po >= low,
            gk > 0,
    ;
    let unit = (o * g) * kk;
    assert(low * gk == 4096 * unit) by (nonlinear_arith)
        requires
            low == (4096 * k) * o,
            gk == g * k,
            unit == (o * g) * kk,
            kk == k * k,
    ;
    assert(t * t == 256 * unit) by (nonlinear_arith)
        requires
            t == 0x4_0000_0000 * gk,
            gk == g * k,
            unit == (o * g) * kk,
            kk == k * k,
            o == 0x1000_0000_0000_0000 * g,
    ;
    assert(unit >= 0x40_0000_0000_0000 * kk) by (nonlinear_arith)
        requires
            unit == (o * g) * kk,
            o > 0x200_0000_0000_0000_0000_0000_0000_0000,
            g >= 1,
            kk >= 0,
            kk == k * k,
    {
        assert(kk >= 0);
        assert(o * g >= 0x40_0000_0000_0000);
        assert((o * g) * kk >= 0x40_0000_0000_0000 * kk);
    }
    assert(facts::size(sum - po * po) <= 0x20_0000_0000 * m);
    // The root of their sum.
    let rr = rk * rk;
    let d = r * r - (x * x + y * y);
    let (x2, y2, s2) = (x * x, y * y, r * r);
    assert(xk * xk == kk * x2 && yk * yk == kk * y2) by (nonlinear_arith)
        requires
            xk == x * k,
            yk == y * k,
            kk == k * k,
            x2 == x * x,
            y2 == y * y,
    ;
    assert(kk * (r * r) == rr) by (nonlinear_arith)
        requires
            rr == rk * rk,
            rk == r * k,
            kk == k * k,
    ;
    assert(kk * (s2 - (x2 + y2)) == kk * s2 - (kk * x2 + kk * y2)) by (nonlinear_arith);
    assert(kk >= 0) by (nonlinear_arith)
        requires
            kk == k * k,
    ;
    closeness::lemma_size(kk, d);
    let sd = facts::size(d);
    assert((kk * sd) * 0x10_0000_0000_0000 <= 2 * (kk * s2) + kk
        * 0x4_0000_0000_0000_0000_0000_0000_0000) by (nonlinear_arith)
        requires
            sd * 0x10_0000_0000_0000 <= 2 * s2 + 0x4_0000_0000_0000_0000_0000_0000_0000,
            kk >= 0,
    ;
    let gap = facts::size(rr - sum);
    assert(gap * 0x10_0000_0000_0000 <= 2 * rr + kk * 0x4_0000_0000_0000_0000_0000_0000_0000);
    assert(kk * 0x4_0000_0000_0000_0000_0000_0000_0000 <= m * 0x10_0000_0000_0000);
    let most = 0x200_0000 * (k * o);
    assert(po <= most) by (nonlinear_arith)
        requires
            po == p * o,
            p <= 0x200_0000 * k,
            most == 0x200_0000 * (k * o),
            o > 0,
    ;
    let p2 = po * po;
    assert(p2 <= po * most) by (nonlinear_arith)
        requires
            p2 == po * po,
            po <= most,
            po > 0,
    ;
    assert(po * most == 0x20_0000_0000_0000_0000_0000 * m) by (nonlinear_arith)
        requires
            most == 0x200_0000 * (k * o),
            m == po * gk,
            gk == g * k,
            o == 0x1000_0000_0000_0000 * g,
    ;
    assert(p2 >= 0x1000_0000_0000_0000 * m) by (nonlinear_arith)
        requires
            p2 == po * po,
            po >= low,
            low == (4096 * k) * o,
            m == po * gk,
            gk == g * k,
            o == 0x1000_0000_0000_0000 * g,
            k > 0,
            g > 0,
            po > 0,
    {
        assert(low >= 0x1000_0000_0000_0000 * gk);
        assert(po * po >= po * (0x1000_0000_0000_0000 * gk));
    }
    assert(rr <= 3 * p2);
    assert(gap <= 0x10_0000_0000 * m);
    // The difference of the squares.
    let z = rk - po;
    assert(rr - p2 == z * (rk + po)) by (nonlinear_arith)
        requires
            rr == rk * rk,
            p2 == po * po,
            z == rk - po,
    ;
    closeness::lemma_size(z, rk + po);
    let sz = facts::size(z);
    assert(rk >= 0) by (nonlinear_arith)
        requires
            rk == r * k,
            r >= 0,
            k > 0,
    ;
    assert(sz * (rk + po) <= 0x40_0000_0000 * m);
    assert(sz <= 0x40_0000_0000 * gk) by (nonlinear_arith)
        requires
            sz * (rk + po) <= 0x40_0000_0000 * m,
            m == po * gk,
            rk >= 0,
            po > 0,
            sz >= 0,
    {
        assert(sz * po <= sz * (rk + po));
        assert(sz * po <= (0x40_0000_0000 * gk) * po);
    }
    let w = r * o - p;
    assert(z == w * o) by (nonlinear_arith)
        requires
            z == rk - po,
            rk == r * k,
            po == p * o,
            k == o * o,
            w == r * o - p,
    ;
    closeness::lemma_size(w, o);
    let sw = facts::size(w);
    assert(sw <= 0x40_0000_0000 * (g * o)) by (nonlinear_arith)
        requires
            sw * o <= 0x40_0000_0000 * gk,
            gk == g * k,
            k == o * o,
            o > 0,
    ;
}

/// A distance from the axis is a number.
proof fn lemma_radius_finite(q: Ecef)
    requires
        geometry::nearby(q),
    ensures
        q.radius().finite(),
        0 <= q.radius().value() <= 0x4000_0000 * closeness::whole(),
{
    closeness::lemma_grains();
    let o = closeness::whole();
    facts::lemma_units_order(0, 0);
    let (u, w) = (rounding::units(q.x.magnitude()), rounding::units(q.y.magnitude()));
    let top = 0x400_0000 * o;
    assert(u * u <= top * top && w * w <= top * top) by (nonlinear_arith)
        requires
            0 <= u <= top,
            0 <= w <= top,
    ;
    let n = u * u + w * w;
    facts::lemma_root_to_nearest(n);
    let m = q.radius().magnitude();
    facts::lemma_power(30);
    let bound = 1053 * rounding::HIDDEN as nat;
    lemma_pow2_adds(30, 1074);
    lemma2_to64();
    assert(rounding::units(bound) == 0x4000_0000 * o);
    facts::lemma_units_order(bound, m);
    facts::lemma_units_order(m, bound);
    if m > bound {
        facts::lemma_units_order(bound, (m - 1) as nat);
        let y = rounding::halfway((m - 1) as nat) as int;
        let big = 0x4000_0000 * o;
        assert(y * y >= big * big) by (nonlinear_arith)
            requires
                y >= big,
                big > 0,
        ;
        assert(big * big == 256 * (top * top)) by (nonlinear_arith)
            requires
                big == 0x4000_0000 * o,
                top == 0x400_0000 * o,
        ;
        assert(top * top > 0) by (nonlinear_arith)
            requires
                top > 0,
        ;
        assert(false);
    }
}

/// The altitude of a point is what it was placed by, to a fraction of a millimetre, at all
/// latitudes up to 89 degrees.
pub proof fn law_altitude_is_kept(alt: Double, lat: SinCos, lon: SinCos)
    requires
        closeness::within(alt, 0x100_0000),
        alt.value() >= -100_000 * closeness::whole(),
        geometry::turn(lat),
        geometry::circle(lon),
        64 * lat.cos.value() >= closeness::whole(),
    ensures
        ({
            let h = Ecef::of(alt, lat, lon).altitude(lat);
            &&& h.finite()
            &&& facts::size(h.value() - alt.value()) <= 0x4000_0000_0000 * closeness::grain()
        }),
{
    closeness::lemma_grains();
    geometry::lemma_square();
    ellipsoid::lemma_many();
    let (o, g) = (closeness::whole(), closeness::grain());
    let k = o * o;
    let q = Ecef::of(alt, lat, lon);
    geometry::law_earth_fixed_coordinates(alt, lat, lon);
    ellipsoid::law_curvature(lat.sin);
    ellipsoid::lemma_ratio(lat.cos);
    ellipsoid::lemma_ratio(lon.cos);
    ellipsoid::lemma_ratio(lon.sin);
    units::law_polar_cosine();
    let n = geo::curvature_radius(lat.sin);
    let (nv, h, c) = (n.value(), alt.value(), lat.cos.value());
    let (co, so) = (lon.cos.value(), lon.sin.value());
    let p = (nv + h) * c;
    assert(4096 * k <= p <= 0x200_0000 * k) by (nonlinear_arith)
        requires
            p == (nv + h) * c,
            6_200_000 * o <= nv + h <= 0x200_0000 * o,
            64 * c >= o,
            c <= o,
            k == o * o,
            o > 0,
    {
        assert((nv + h) * (64 * c) >= (6_200_000 * o) * o);
        assert((nv + h) * c <= (0x200_0000 * o) * o);
    }
    lemma_radius_finite(q);
    law_distance_from_the_axis(q);
    let r = q.radius();
    lemma_off_axis(q.x.value(), q.y.value(), r.value(), p, co, so, o, k, g);
    // The quotient is a number, and so is the altitude.
    let rv = r.value();
    lemma_altitude_finite(r, lat.cos, n);
    let x = Double { bits: POLAR };
    assert(x.value() * 10_000_000_000 <= o + 10_000_000_000 * g);
    assert(x.below(lat.cos));
    assert(lat.cos.absolute() == lat.cos) by {
        facts::lemma_units_order(lat.cos.magnitude(), 0);
    }
    law_altitude(q, lat);
    let a = q.altitude(lat).value();
    let e = (a + nv) * c - rv * o;
    let ro = rv * o;
    assert(nv * c <= 6_500_000 * k) by (nonlinear_arith)
        requires
            0 <= nv <= 6_500_000 * o,
            0 < c <= o,
            k == o * o,
            o > 0,
    ;
    let go = g * o;
    assert(k == 0x1000_0000_0000_0000 * go) by (nonlinear_arith)
        requires
            k == o * o,
            go == g * o,
            o == 0x1000_0000_0000_0000 * g,
    ;
    assert(ro <= p + 0x40_0000_0000 * go);
    assert(c * 0x10_0000_0000_0000 <= k) by (nonlinear_arith)
        requires
            c <= o,
            k == o * o,
            o > 0x10_0000_0000_0000,
            c > 0,
    ;
    assert(facts::size(e) * 0x20_0000_0000_0000 <= 3 * ro + nv * c + 3 * (c
        * 0x10_0000_0000_0000));
    assert(facts::size(e) <= 0x8_0000_0000 * go);
    let z = a - h;
    assert(z * c == e + (ro - p)) by (nonlinear_arith)
        requires
            z == a - h,
            e == (a + nv) * c - ro,
            p == (nv + h) * c,
    ;
    closeness::lemma_size(z, c);
    let sz = facts::size(z);
    assert(sz * c <= 0x80_0000_0000 * go);
    assert(sz <= 0x4000_0000_0000 * g) by (nonlinear_arith)
        requires
            sz * c <= 0x80_0000_0000 * go,
            go == g * o,
            64 * c >= o,
            sz >= 0,
            o > 0,
            g > 0,
    {
        assert(sz * o <= sz * (64 * c));
        assert(sz * o <= (0x2000_0000_0000 * g) * o);
    }
}

/// A quotient by a cosine that is not small, less a radius of curvature, is a number.
proof fn lemma_altitude_finite(r: Double, c: Double, n: Double)
    requires
        r.finite(),
        0 <= r.value() <= 0x4000_0000 * closeness::whole(),
        c.finite(),
        64 * c.value() >= closeness::whole(),
        c.value() <= closeness::whole(),
        closeness::within(n, 6_500_000),
    ensures
        r.over(c).minus(n).finite(),
{
    closeness::lemma_grains();
    let (o, g) = (closeness::whole(), closeness::grain());
    let (rv, cv) = (r.value(), c.value());
    facts::lemma_units_order(0, 0);
    facts::lemma_units_order(c.magnitude(), 0);
    facts::lemma_units_order(r.magnitude(), 0);
    lemma2_to64();
    lemma2_to64_rest();
    lemma_pow2_adds(36, 1074);
    let (u, d) = (rounding::units(r.magnitude()), rounding::units(c.magnitude()));
    assert(u * o <= d * (0x10_0000_0000 * o)) by (nonlinear_arith)
        requires
            u <= 0x4000_0000 * o,
            64 * d >= o,
            o > 0,
    ;
    facts::lemma_rounded_to_nearest(r.negative() != c.negative(), u * pow2(1074), d);
    let q = r.over(c);
    facts::lemma_rounds_below(u * pow2(1074), d, q.magnitude(), 36);
    facts::lemma_over_error(r, c);
    let qv = q.value();
    let k = o * o;
    assert(rv * o <= 0x4000_0000 * k) by (nonlinear_arith)
        requires
            rv <= 0x4000_0000 * o,
            k == o * o,
            o > 0,
    ;
    assert(cv * 0x10_0000_0000_0000 <= k) by (nonlinear_arith)
        requires
            cv <= o,
            k == o * o,
            o >= 0x1000_0000_0000_0000,
            cv > 0,
    ;
    assert(facts::size(qv * cv - rv * o) <= k);
    assert(qv <= 0x20_0000_0000 * o) by (nonlinear_arith)
        requires
            qv * cv <= 0x4000_0001 * k,
            64 * cv >= o,
            k == o * o,
            o > 0,
            qv >= 0,
    {
        assert(qv * o <= qv * (64 * cv));
        assert(qv * o <= (0x10_0000_0040 * o) * o);
    }
    closeness::lemma_itself(q);
    closeness::lemma_itself(n);
    closeness::lemma_opposite(n, n.value(), 1, 0);
    closeness::lemma_plus(q, qv, 0, 0x20_0000_0000, n.negated(), -n.value(), 0, 6_500_000, 1);
}

} // verus!
