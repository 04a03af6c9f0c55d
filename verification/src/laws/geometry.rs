//! Coordinates, against the exact geometry: Earth-fixed axes, and the local frame.
//!
//! Positions are within 2^26 metres of the centre of the Earth along each axis and altitudes
//! within 2^24 metres, far beyond all that flies. Grains of 2^-60 metres measure the errors:
//! 2^34 of them are some 15 nanometres, 2^40 are about a micrometre.
use crate::double::facts;
use crate::double::{Double, ONE};
use crate::geo;
use crate::geo::{Ecef, Enu, Frame, SinCos, WGS84_E2};
use crate::laws::closeness;
use crate::laws::ellipsoid;
use vstd::prelude::*;

verus! {

/// Neither the sine nor the cosine is larger than one.
pub open spec fn turn(t: SinCos) -> bool {
    t.sin.magnitude() <= ONE && t.cos.magnitude() <= ONE
}

/// A sine and a cosine of one angle, to the precision of doubles.
pub open spec fn circle(t: SinCos) -> bool {
    let (s, c, o) = (t.sin.value(), t.cos.value(), closeness::whole());
    &&& turn(t)
    &&& facts::size(s * s + c * c - o * o) <= 1024 * (closeness::grain() * o)
}

/// A position near the Earth.
pub open spec fn nearby(q: Ecef) -> bool {
    &&& closeness::within(q.x, 0x400_0000)
    &&& closeness::within(q.y, 0x400_0000)
    &&& closeness::within(q.z, 0x400_0000)
}

/// A local position near the Earth.
pub open spec fn at_hand(p: Enu) -> bool {
    &&& closeness::within(p.e, 0x4000_0000)
    &&& closeness::within(p.n, 0x4000_0000)
    &&& closeness::within(p.u, 0x4000_0000)
}

/// One is positive, and so is its square.
pub proof fn lemma_square()
    ensures
        closeness::whole() * closeness::whole() > 0,
        closeness::whole() > 0,
{
    closeness::lemma_grains();
    let o = closeness::whole();
    assert(o * o > 0) by (nonlinear_arith)
        requires
            o > 0,
    ;
}

/// The Earth-fixed coordinates of a point at this altitude: (N + h) cos lat cos lon,
/// (N + h) cos lat sin lon and (N (1 - e^2) + h) sin lat, with their signs.
pub open spec fn is_placed(alt: Double, lat: SinCos, lon: SinCos, q: Ecef) -> bool {
    let (o, h) = (closeness::whole(), alt.value());
    let n = geo::curvature_radius(lat.sin).value();
    &&& closeness::near(
        q.x,
        (n + h) * lat.cos.value() * lon.cos.value(),
        o * o,
        0x4_0000_0000,
    )
    &&& closeness::near(
        q.y,
        (n + h) * lat.cos.value() * lon.sin.value(),
        o * o,
        0x4_0000_0000,
    )
    &&& closeness::near(
        q.z,
        (n * (o - ellipsoid::flatness()) + h * o) * lat.sin.value(),
        o * o,
        0x4_0000_0000,
    )
    &&& nearby(q)
}

/// Points are placed by their coordinates.
pub proof fn law_earth_fixed_coordinates(alt: Double, lat: SinCos, lon: SinCos)
    requires
        closeness::within(alt, 0x100_0000),
        turn(lat),
        turn(lon),
    ensures
        is_placed(alt, lat, lon, Ecef::of(alt, lat, lon)),
{
    lemma_square();
    closeness::lemma_grains();
    ellipsoid::law_constants();
    ellipsoid::law_curvature(lat.sin);
    ellipsoid::lemma_ratio(lat.sin);
    ellipsoid::lemma_ratio(lat.cos);
    ellipsoid::lemma_ratio(lon.sin);
    ellipsoid::lemma_ratio(lon.cos);
    facts::lemma_one();
    let (o, h) = (closeness::whole(), alt.value());
    let radius = geo::curvature_radius(lat.sin);
    let n = radius.value();
    let (sl, cl, so, co) = (
        lat.sin.value(),
        lat.cos.value(),
        lon.sin.value(),
        lon.cos.value(),
    );
    closeness::lemma_itself(alt);
    closeness::lemma_itself(radius);
    closeness::lemma_itself(lat.sin);
    closeness::lemma_itself(lat.cos);
    closeness::lemma_itself(lon.sin);
    closeness::lemma_itself(lon.cos);
    closeness::lemma_plus(radius, n, 0, 6500000, alt, h, 0, 0x100_0000, 1);
    let r = radius.plus(alt);
    closeness::lemma_times(r, n + h, 1, 2979483649, 23277217, lat.cos, cl, 1, 0, 1);
    assert(1 * 1 * o == o);
    let p = r.times(lat.cos);
    closeness::lemma_times(p, (n + h) * cl, o, 5958967427, 23277218, lon.cos, co, 1, 0, 1);
    closeness::lemma_times(p, (n + h) * cl, o, 5958967427, 23277218, lon.sin, so, 1, 0, 1);
    assert(o * 1 * o == o * o);
    let q = Ecef::of(alt, lat, lon);
    closeness::lemma_wider(q.x, (n + h) * cl * co, o * o, 8938451333, 0x4_0000_0000);
    closeness::lemma_wider(q.y, (n + h) * cl * so, o * o, 8938451333, 0x4_0000_0000);
    // Along the axis.
    let (one, e) = (Double { bits: ONE }, Double { bits: WGS84_E2 });
    let f = ellipsoid::flatness();
    closeness::lemma_itself(one);
    closeness::lemma_itself(e);
    closeness::lemma_opposite(e, f, 1, 0);
    closeness::lemma_plus(one, o, 0, 1, e.negated(), -f, 0, 1, 1);
    let level = one.minus(e);
    closeness::lemma_times(radius, n, 1, 0, 6500000, level, o - f, 1, 257, 3);
    let m = radius.times(level);
    closeness::lemma_expanded(alt, h, 1, 0, o);
    assert(1 * o == o);
    closeness::lemma_plus(
        m,
        n * (o - f),
        4166500002,
        19500001,
        alt,
        h * o,
        0,
        0x100_0000,
        o,
    );
    let k = n * (o - f) + h * o;
    closeness::lemma_times(m.plus(alt), k, o, 8809983779, 36277218, lat.sin, sl, 1, 0, 1);
    closeness::lemma_wider(q.z, k * sl, o * o, 13453467685, 0x4_0000_0000);
}

/// The sign of each Earth-fixed coordinate is that of its cosine and sine: the longitude
/// decides on which side of the meridian a point lies, east or west alike.
pub proof fn law_signs_of_coordinates(alt: Double, lat: SinCos, lon: SinCos)
    requires
        closeness::within(alt, 0x100_0000),
        alt.value() >= -6_000_000 * closeness::whole(),
        turn(lat),
        turn(lon),
    ensures
        ({
            let q = Ecef::of(alt, lat, lon);
            let (cx, sx) = (
                lat.cos.value() * lon.cos.value(),
                lat.cos.value() * lon.sin.value(),
            );
            &&& cx >= 0 ==> q.x.value() >= 0
            &&& cx <= 0 ==> q.x.value() <= 0
            &&& sx >= 0 ==> q.y.value() >= 0
            &&& sx <= 0 ==> q.y.value() <= 0
            &&& lat.sin.value() >= 0 ==> q.z.value() >= 0
            &&& lat.sin.value() <= 0 ==> q.z.value() <= 0
        }),
{
    lemma_square();
    closeness::lemma_grains();
    ellipsoid::law_constants();
    ellipsoid::law_curvature(lat.sin);
    ellipsoid::lemma_ratio(lat.sin);
    ellipsoid::lemma_ratio(lat.cos);
    ellipsoid::lemma_ratio(lon.sin);
    ellipsoid::lemma_ratio(lon.cos);
    facts::lemma_one();
    let (o, h) = (closeness::whole(), alt.value());
    let radius = geo::curvature_radius(lat.sin);
    let n = radius.value();
    closeness::lemma_itself(alt);
    closeness::lemma_itself(radius);
    closeness::lemma_itself(lat.cos);
    closeness::lemma_plus(radius, n, 0, 6500000, alt, h, 0, 0x100_0000, 1);
    let r = radius.plus(alt);
    let g = closeness::grain();
    assert(r.value() > 0) by {
        assert(r.value() * 1 >= n + h - 2979483649 * (g * 1));
    }
    law_earth_fixed_coordinates(alt, lat, lon);
    closeness::lemma_times(r, n + h, 1, 2979483649, 23277217, lat.cos, lat.cos.value(), 1, 0, 1);
    lemma_sign(r, lat.cos);
    let p = r.times(lat.cos);
    lemma_signs(p, lat.cos, lon.cos);
    lemma_signs(p, lat.cos, lon.sin);
    let (one, e) = (Double { bits: ONE }, Double { bits: WGS84_E2 });
    let f = ellipsoid::flatness();
    closeness::lemma_itself(one);
    closeness::lemma_itself(e);
    closeness::lemma_opposite(e, f, 1, 0);
    closeness::lemma_plus(one, o, 0, 1, e.negated(), -f, 0, 1, 1);
    let level = one.minus(e);
    closeness::lemma_times(radius, n, 1, 0, 6500000, level, o - f, 1, 257, 3);
    assert(1 * 1 * o == o);
    closeness::lemma_expanded(alt, h, 1, 0, o);
    assert(1 * o == o);
    let m = radius.times(level);
    closeness::lemma_plus(
        m,
        n * (o - f),
        4166500002,
        19500001,
        alt,
        h * o,
        0,
        0x100_0000,
        o,
    );
    let s = m.plus(alt);
    let k = n * (o - f) + h * o;
    assert(10000 * (n * (o - f)) >= 9933 * (6_300_000 * o) * o) by (nonlinear_arith)
        requires
            n >= 6_300_000 * o,
            10000 * (o - f) >= 9933 * o,
            o > 0,
    ;
    assert(h * o >= (-6_000_000 * o) * o) by (nonlinear_arith)
        requires
            h >= -6_000_000 * o,
            o > 0,
    ;
    let oo = o * o;
    assert(9933 * (6_300_000 * o) * o == 62_577_900_000 * oo) by (nonlinear_arith)
        requires
            oo == o * o,
    ;
    assert((-6_000_000 * o) * o == -6_000_000 * oo) by (nonlinear_arith)
        requires
            oo == o * o,
    ;
    assert(g * o * 0x1000_0000_0000_0000 == oo) by (nonlinear_arith)
        requires
            oo == o * o,
            o == 0x1000_0000_0000_0000 * g,
    ;
    let v = s.value();
    assert(v * o >= k - 8809983779 * (g * o));
    assert(v > 0) by (nonlinear_arith)
        requires
            v * o > 0,
            o > 0,
    ;
    lemma_sign(s, lat.sin);
}

/// A positive factor does not change a sign.
proof fn lemma_sign(a: Double, b: Double)
    requires
        a.finite() && b.finite() && a.times(b).finite(),
        a.value() > 0,
    ensures
        b.value() >= 0 ==> a.times(b).value() >= 0,
        b.value() <= 0 ==> a.times(b).value() <= 0,
{
    facts::lemma_times_error(a, b);
    let (x, y) = (a.value(), b.value());
    assert(y >= 0 ==> x * y >= 0) by (nonlinear_arith)
        requires
            x > 0,
    ;
    assert(y <= 0 ==> x * y <= 0) by (nonlinear_arith)
        requires
            x > 0,
    ;
}

/// A number of the sign of another can take its place in the sign of a product.
proof fn lemma_signs(p: Double, c: Double, b: Double)
    requires
        p.finite() && b.finite() && p.times(b).finite(),
        c.value() >= 0 ==> p.value() >= 0,
        c.value() <= 0 ==> p.value() <= 0,
    ensures
        c.value() * b.value() >= 0 ==> p.times(b).value() >= 0,
        c.value() * b.value() <= 0 ==> p.times(b).value() <= 0,
{
    facts::lemma_times_error(p, b);
    let (x, y, z) = (p.value(), b.value(), c.value());
    assert(z * y >= 0 ==> x * y >= 0) by (nonlinear_arith)
        requires
            z >= 0 ==> x >= 0,
            z <= 0 ==> x <= 0,
    ;
    assert(z * y <= 0 ==> x * y <= 0) by (nonlinear_arith)
        requires
            z >= 0 ==> x >= 0,
            z <= 0 ==> x <= 0,
    ;
}

/// A point as far west as another is east has the opposite second coordinate, exactly, and
/// the same others. One on the other side of the Earth's axis has the opposite first.
pub proof fn law_coordinates_mirror(alt: Double, lat: SinCos, lon: SinCos)
    requires
        !lon.sin.nan(),
        !lon.cos.nan(),
    ensures
        ({
            let (east, west) = (
                Ecef::of(alt, lat, lon),
                Ecef::of(alt, lat, (SinCos { sin: lon.sin.negated(), ..lon })),
            );
            &&& west.x == east.x
            &&& west.y.mirrors(east.y)
            &&& west.z == east.z
        }),
        ({
            let (near, far) = (
                Ecef::of(alt, lat, lon),
                Ecef::of(alt, lat, (SinCos { cos: lon.cos.negated(), ..lon })),
            );
            &&& far.x.mirrors(near.x)
            &&& far.y == near.y
            &&& far.z == near.z
        }),
{
    let n = geo::curvature_radius(lat.sin);
    let p = n.plus(alt).times(lat.cos);
    lemma_factor_mirrors(p, lon.sin);
    lemma_factor_mirrors(p, lon.cos);
}

proof fn lemma_factor_mirrors(p: Double, s: Double)
    requires
        !s.nan(),
    ensures
        p.times(s.negated()).mirrors(p.times(s)),
{
    facts::lemma_times_commutes(p, s);
    facts::lemma_times_commutes(p, s.negated());
    facts::lemma_scale_mirrors(s.negated(), p, s, p);
}

/// The longitude of a point is that of its coordinates: they are in the ratio of the sine to
/// the cosine, whatever the signs of these.
pub proof fn law_longitude_is_kept(alt: Double, lat: SinCos, lon: SinCos)
    requires
        closeness::within(alt, 0x100_0000),
        turn(lat),
        turn(lon),
    ensures
        ({
            let q = Ecef::of(alt, lat, lon);
            facts::size(q.y.value() * lon.cos.value() - q.x.value() * lon.sin.value())
                <= 0x8_0000_0000 * (closeness::grain() * closeness::whole())
        }),
{
    law_earth_fixed_coordinates(alt, lat, lon);
    ellipsoid::lemma_ratio(lon.sin);
    ellipsoid::lemma_ratio(lon.cos);
    lemma_square();
    let q = Ecef::of(alt, lat, lon);
    let (o, g) = (closeness::whole(), closeness::grain());
    let (so, co, x, y) = (lon.sin.value(), lon.cos.value(), q.x.value(), q.y.value());
    let k = o * o;
    let w = (geo::curvature_radius(lat.sin).value() + alt.value()) * lat.cos.value();
    let (dx, dy) = (x * k - w * co, y * k - w * so);
    let t = 0x4_0000_0000 * (g * k);
    closeness::lemma_bounded(dy, co, t, o);
    closeness::lemma_bounded(dx, so, t, o);
    let z = y * co - x * so;
    assert(z * k == dy * co - dx * so) by (nonlinear_arith)
        requires
            z == y * co - x * so,
            dx == x * k - w * co,
            dy == y * k - w * so,
    ;
    assert(t * o + t * o == (0x8_0000_0000 * (g * o)) * k) by (nonlinear_arith)
        requires
            t == 0x4_0000_0000 * (g * k),
    ;
    let s = facts::size(z);
    closeness::lemma_size(z, k);
    let b = 0x8_0000_0000 * (g * o);
    assert(s <= b) by (nonlinear_arith)
        requires
            s * k <= b * k,
            k > 0,
    ;
}

/// How far a position is east of the origin of a frame, exactly, over one.
pub open spec fn eastward(frame: Frame, q: Ecef) -> int {
    let (so, co) = (frame.lon.sin.value(), frame.lon.cos.value());
    let (dx, dy) = (
        q.x.value() - frame.origin.x.value(),
        q.y.value() - frame.origin.y.value(),
    );
    co * dy - so * dx
}

/// How far it is north, over the square of one.
pub open spec fn northward(frame: Frame, q: Ecef) -> int {
    let (sl, cl) = (frame.lat.sin.value(), frame.lat.cos.value());
    let (so, co) = (frame.lon.sin.value(), frame.lon.cos.value());
    let (dx, dy, dz) = (
        q.x.value() - frame.origin.x.value(),
        q.y.value() - frame.origin.y.value(),
        q.z.value() - frame.origin.z.value(),
    );
    (cl * dz) * closeness::whole() - (sl * co) * dx - (sl * so) * dy
}

/// How far it is up, over the square of one.
pub open spec fn upward(frame: Frame, q: Ecef) -> int {
    let (sl, cl) = (frame.lat.sin.value(), frame.lat.cos.value());
    let (so, co) = (frame.lon.sin.value(), frame.lon.cos.value());
    let (dx, dy, dz) = (
        q.x.value() - frame.origin.x.value(),
        q.y.value() - frame.origin.y.value(),
        q.z.value() - frame.origin.z.value(),
    );
    (cl * co) * dx + (cl * so) * dy + (sl * dz) * closeness::whole()
}

/// The offset from the origin of the frame, turned so that its axes point east, north and up.
pub open spec fn is_local(frame: Frame, q: Ecef, p: Enu) -> bool {
    let o = closeness::whole();
    &&& closeness::near(p.e, eastward(frame, q), o, 0x20_0000_0000)
    &&& closeness::near(p.n, northward(frame, q), o * o, 0x80_0000_0000)
    &&& closeness::near(p.u, upward(frame, q), o * o, 0x80_0000_0000)
    &&& at_hand(p)
}

/// Local positions are offsets, turned.
pub proof fn law_local_coordinates(frame: Frame, q: Ecef)
    requires
        nearby(q),
        nearby(frame.origin),
        turn(frame.lat),
        turn(frame.lon),
    ensures
        is_local(frame, q, frame.rotated(q)),
{
    lemma_square();
    let (lat, lon, o) = (frame.lat, frame.lon, closeness::whole());
    ellipsoid::lemma_ratio(lat.sin);
    ellipsoid::lemma_ratio(lat.cos);
    ellipsoid::lemma_ratio(lon.sin);
    ellipsoid::lemma_ratio(lon.cos);
    let (sl, cl, so, co) = (
        lat.sin.value(),
        lat.cos.value(),
        lon.sin.value(),
        lon.cos.value(),
    );
    let (xd, yd, zd) = (
        q.x.minus(frame.origin.x),
        q.y.minus(frame.origin.y),
        q.z.minus(frame.origin.z),
    );
    let (dx, dy, dz) = (
        q.x.value() - frame.origin.x.value(),
        q.y.value() - frame.origin.y.value(),
        q.z.value() - frame.origin.z.value(),
    );
    lemma_difference(q.x, frame.origin.x);
    lemma_difference(q.y, frame.origin.y);
    lemma_difference(q.z, frame.origin.z);
    lemma_turned(lon.sin);
    lemma_turned(lat.sin);
    closeness::lemma_itself(lat.sin);
    closeness::lemma_itself(lat.cos);
    closeness::lemma_itself(lon.sin);
    closeness::lemma_itself(lon.cos);
    assert(1 * 1 * o == o);
    assert(o * 1 * o == o * o);
    // East.
    let (ns, nl) = (lon.sin.negated(), lat.sin.negated());
    closeness::lemma_times(ns, -so, 1, 0, 1, xd, dx, 1, 17179869185, 134217729);
    closeness::lemma_times(lon.cos, co, 1, 0, 1, yd, dy, 1, 17179869185, 134217729);
    closeness::lemma_plus(
        ns.times(xd),
        (-so) * dx,
        34359738499,
        134217730,
        lon.cos.times(yd),
        co * dy,
        34359738499,
        134217730,
        o,
    );
    assert((-so) * dx == -(so * dx)) by (nonlinear_arith);
    let p = frame.rotated(q);
    closeness::lemma_wider(p.e, eastward(frame, q), o, 103079215879, 0x20_0000_0000);
    // North.
    lemma_double_turn(nl, -sl, lon.cos, co, xd, dx);
    lemma_double_turn(lat.sin, sl, lon.sin, so, yd, dy);
    closeness::lemma_times(lat.cos, cl, 1, 0, 1, zd, dz, 1, 17179869185, 134217729);
    closeness::lemma_expanded(lat.cos.times(zd), cl * dz, o, 34359738499, o);
    let (n1, n2, n3) = (
        nl.times(lon.cos).times(xd),
        lat.sin.times(lon.sin).times(yd),
        lat.cos.times(zd),
    );
    lemma_three(
        n1,
        ((-sl) * co) * dx,
        n2.negated(),
        -((sl * so) * dy),
        n3,
        (cl * dz) * o,
    );
    assert(((-sl) * co) * dx == -((sl * co) * dx)) by (nonlinear_arith);
    // Up.
    lemma_double_turn(lat.cos, cl, lon.cos, co, xd, dx);
    lemma_double_turn(lat.cos, cl, lon.sin, so, yd, dy);
    closeness::lemma_times(lat.sin, sl, 1, 0, 1, zd, dz, 1, 17179869185, 134217729);
    closeness::lemma_expanded(lat.sin.times(zd), sl * dz, o, 34359738499, o);
    let (u1, u2, u3) = (
        lat.cos.times(lon.cos).times(xd),
        lat.cos.times(lon.sin).times(yd),
        lat.sin.times(zd),
    );
    lemma_three(u1, (cl * co) * dx, u2, (cl * so) * dy, u3, (sl * dz) * o);
    assert(closeness::within(p.e, 268435461));
    assert(closeness::within(p.n, 671088650));
    assert(closeness::within(p.u, 671088650));
}

/// The difference of two coordinates.
proof fn lemma_difference(a: Double, b: Double)
    requires
        closeness::within(a, 0x400_0000),
        closeness::within(b, 0x400_0000),
    ensures
        closeness::near(a.minus(b), a.value() - b.value(), 1, 17179869185),
        closeness::within(a.minus(b), 134217729),
{
    closeness::lemma_itself(a);
    closeness::lemma_itself(b);
    closeness::lemma_opposite(b, b.value(), 1, 0);
    closeness::lemma_plus(a, a.value(), 0, 0x400_0000, b.negated(), -b.value(), 0, 0x400_0000, 1);
}

/// The opposite of a sine.
pub proof fn lemma_turned(s: Double)
    requires
        closeness::within(s, 1),
    ensures
        closeness::near(s.negated(), -s.value(), 1, 0),
        closeness::within(s.negated(), 1),
{
    closeness::lemma_itself(s);
    closeness::lemma_opposite(s, s.value(), 1, 0);
}

/// A coordinate times two sines or cosines.
proof fn lemma_double_turn(a: Double, av: int, b: Double, bv: int, x: Double, xv: int)
    requires
        closeness::near(a, av, 1, 0) && closeness::within(a, 1),
        closeness::near(b, bv, 1, 0) && closeness::within(b, 1),
        closeness::near(x, xv, 1, 17179869185) && closeness::within(x, 134217729),
    ensures
        ({
            let (r, o) = (a.times(b).times(x), closeness::whole());
            &&& closeness::near(r, (av * bv) * xv, o * o, 86167781766)
            &&& closeness::within(r, 268435459)
            &&& closeness::near(r.negated(), -((av * bv) * xv), o * o, 86167781766)
            &&& closeness::within(r.negated(), 268435459)
        }),
{
    lemma_square();
    let o = closeness::whole();
    closeness::lemma_times(a, av, 1, 0, 1, b, bv, 1, 0, 1);
    assert(1 * 1 * o == o);
    closeness::lemma_times(a.times(b), av * bv, o, 130, 2, x, xv, 1, 17179869185, 134217729);
    assert(o * 1 * o == o * o);
    closeness::lemma_opposite(a.times(b).times(x), (av * bv) * xv, o * o, 86167781766);
}

/// The sum of three turned coordinates.
proof fn lemma_three(a: Double, av: int, b: Double, bv: int, c: Double, cv: int)
    requires
        ({
            let k = closeness::whole() * closeness::whole();
            &&& closeness::near(a, av, k, 86167781766) && closeness::within(a, 268435459)
            &&& closeness::near(b, bv, k, 86167781766) && closeness::within(b, 268435459)
            &&& closeness::near(c, cv, k, 34359738499) && closeness::within(c, 134217730)
        }),
    ensures
        closeness::near(
            a.plus(b).plus(c),
            av + bv + cv,
            closeness::whole() * closeness::whole(),
            0x80_0000_0000,
        ),
        closeness::within(a.plus(b).plus(c), 671088650),
{
    lemma_square();
    let k = closeness::whole() * closeness::whole();
    closeness::lemma_plus(a, av, 86167781766, 268435459, b, bv, 86167781766, 268435459, k);
    let s = a.plus(b);
    closeness::lemma_plus(s, av + bv, 241055041037, 536870919, c, cv, 34359738499, 134217730, k);
    closeness::lemma_wider(s.plus(c), av + bv + cv, k, 361314126609, 0x80_0000_0000);
}

/// The difference of two coordinates of points over one site, one above the other.
proof fn lemma_apart(a: int, b: int, k: int, m: int, n: int, h: int, j: int, c: int, t: int)
    requires
        facts::size(a * k - (n + h) * c) <= t,
        facts::size(b * k - (n + j) * c) <= t,
        m == a - b,
    ensures
        facts::size(m * k - (h - j) * c) <= 2 * t,
{
    assert(m * k - (h - j) * c == (a * k - (n + h) * c) - (b * k - (n + j) * c)) by (nonlinear_arith)
        requires
            m == a - b,
    ;
}

/// A point over the site of a frame is above its origin by the difference of their
/// altitudes, and neither east nor north of it, to about a micrometre: wherever the site is,
/// on whatever side of the meridian and of the equator.
pub proof fn law_overhead_is_up(frame: Frame, alt: Double)
    requires
        closeness::within(frame.site.alt_m, 0x100_0000),
        closeness::within(alt, 0x100_0000),
        circle(frame.lat),
        circle(frame.lon),
        frame.origin == Ecef::of(frame.site.alt_m, frame.lat, frame.lon),
    ensures
        ({
            let p = frame.rotated(Ecef::of(alt, frame.lat, frame.lon));
            let (g, rise) = (closeness::grain(), alt.value() - frame.site.alt_m.value());
            &&& facts::size(p.e.value()) <= 0x100_0000_0000 * g
            &&& facts::size(p.n.value()) <= 0x100_0000_0000 * g
            &&& facts::size(p.u.value() - rise) <= 0x100_0000_0000 * g
        }),
{
    lemma_square();
    closeness::lemma_grains();
    let (lat, lon, site) = (frame.lat, frame.lon, frame.site.alt_m);
    let q = Ecef::of(alt, lat, lon);
    law_earth_fixed_coordinates(alt, lat, lon);
    law_earth_fixed_coordinates(site, lat, lon);
    law_local_coordinates(frame, q);
    ellipsoid::lemma_ratio(lat.sin);
    ellipsoid::lemma_ratio(lat.cos);
    ellipsoid::lemma_ratio(lon.sin);
    ellipsoid::lemma_ratio(lon.cos);
    let (o, g) = (closeness::whole(), closeness::grain());
    let k = o * o;
    let (sl, cl, so, co) = (
        lat.sin.value(),
        lat.cos.value(),
        lon.sin.value(),
        lon.cos.value(),
    );
    let (h, j, n) = (alt.value(), site.value(), geo::curvature_radius(lat.sin).value());
    let d = h - j;
    let (dx, dy, dz) = (
        q.x.value() - frame.origin.x.value(),
        q.y.value() - frame.origin.y.value(),
        q.z.value() - frame.origin.z.value(),
    );
    let t = 0x4_0000_0000 * (g * k);
    let b = 0x8_0000_0000 * (g * k);
    assert((n + h) * cl * co == (n + h) * (cl * co)) by (nonlinear_arith);
    assert((n + j) * cl * co == (n + j) * (cl * co)) by (nonlinear_arith);
    assert((n + h) * cl * so == (n + h) * (cl * so)) by (nonlinear_arith);
    assert((n + j) * cl * so == (n + j) * (cl * so)) by (nonlinear_arith);
    lemma_apart(q.x.value(), frame.origin.x.value(), k, dx, n, h, j, cl * co, t);
    lemma_apart(q.y.value(), frame.origin.y.value(), k, dy, n, h, j, cl * so, t);
    let m = n * (o - ellipsoid::flatness());
    lemma_apart(q.z.value(), frame.origin.z.value(), k, dz, m, h * o, j * o, sl, t);
    assert(h * o - j * o == d * o) by (nonlinear_arith)
        requires
            d == h - j,
    ;
    let ex = dx * k - d * (cl * co);
    let ey = dy * k - d * (cl * so);
    let ez = dz * k - (d * o) * sl;
    let p = frame.rotated(q);
    lemma_overhead_east(p.e.value(), o, k, g, d, cl, co, so, dx, dy, ex, ey, b);
    assert(facts::size(d) <= 0x200_0000 * o);
    lemma_overhead_north(p.n.value(), o, k, g, d, sl, cl, co, so, dx, dy, dz, ex, ey, ez, b);
    lemma_overhead_up(p.u.value(), o, k, g, d, sl, cl, co, so, dx, dy, dz, ex, ey, ez, b);
}

proof fn lemma_overhead_east(
    v: int,
    o: int,
    k: int,
    g: int,
    d: int,
    cl: int,
    co: int,
    so: int,
    dx: int,
    dy: int,
    ex: int,
    ey: int,
    b: int,
)
    requires
        o > 0 && k > 0 && g > 0,
        b == 0x8_0000_0000 * (g * k),
        facts::size(v * o - (co * dy - so * dx)) <= 0x20_0000_0000 * (g * o),
        facts::size(co) <= o && facts::size(so) <= o,
        ex == dx * k - d * (cl * co),
        ey == dy * k - d * (cl * so),
        facts::size(ex) <= b && facts::size(ey) <= b,
    ensures
        facts::size(v) <= 0x100_0000_0000 * g,
{
    closeness::lemma_bounded(co, ey, o, b);
    closeness::lemma_bounded(so, ex, o, b);
    let w = co * dy - so * dx;
    assert(co * (dy * k) - so * (dx * k) == co * ey - so * ex) by (nonlinear_arith)
        requires
            ex == dx * k - d * (cl * co),
            ey == dy * k - d * (cl * so),
    ;
    assert(w * k == co * (dy * k) - so * (dx * k)) by (nonlinear_arith)
        requires
            w == co * dy - so * dx,
    ;
    let z = v * o - w;
    closeness::lemma_bounded(z, k, 0x20_0000_0000 * (g * o), k);
    let q = o * k;
    assert(v * q == z * k + w * k) by (nonlinear_arith)
        requires
            z == v * o - w,
            q == o * k,
    ;
    assert((0x20_0000_0000 * (g * o)) * k == 0x20_0000_0000 * (g * q)) by (nonlinear_arith)
        requires
            q == o * k,
    ;
    assert(o * b == 0x8_0000_0000 * (g * q)) by (nonlinear_arith)
        requires
            b == 0x8_0000_0000 * (g * k),
            q == o * k,
    ;
    lemma_shared(v, q, g, o, k);
}

/// What is bounded by grains times a factor is so without it.
proof fn lemma_shared(v: int, q: int, g: int, o: int, k: int)
    requires
        o > 0 && k > 0 && g > 0,
        q == o * k,
        facts::size(v * q) <= 0x100_0000_0000 * (g * q),
    ensures
        facts::size(v) <= 0x100_0000_0000 * g,
{
    assert(q > 0) by (nonlinear_arith)
        requires
            q == o * k,
            o > 0,
            k > 0,
    ;
    closeness::lemma_size(v, q);
    let s = facts::size(v);
    assert(s <= 0x100_0000_0000 * g) by (nonlinear_arith)
        requires
            s * q <= 0x100_0000_0000 * (g * q),
            q > 0,
    ;
}

/// The errors of three coordinates, each turned twice.
proof fn lemma_turned_errors(k: int, f: int, ex: int, h: int, ey: int, j: int, ez: int, b: int)
    requires
        facts::size(f) <= k && facts::size(h) <= k && facts::size(j) <= k,
        facts::size(ex) <= b && facts::size(ey) <= b && facts::size(ez) <= b,
    ensures
        facts::size(f * ex) <= k * b,
        facts::size(h * ey) <= k * b,
        facts::size(j * ez) <= k * b,
{
    closeness::lemma_bounded(f, ex, k, b);
    closeness::lemma_bounded(h, ey, k, b);
    closeness::lemma_bounded(j, ez, k, b);
}

proof fn lemma_overhead_north(
    v: int,
    o: int,
    k: int,
    g: int,
    d: int,
    sl: int,
    cl: int,
    co: int,
    so: int,
    dx: int,
    dy: int,
    dz: int,
    ex: int,
    ey: int,
    ez: int,
    b: int,
)
    requires
        o > 0 && k > 0 && g > 0,
        k == o * o,
        b == 0x8_0000_0000 * (g * k),
        facts::size(v * k - ((cl * dz) * o - (sl * co) * dx - (sl * so) * dy)) <= 0x80_0000_0000 * (
        g * k),
        facts::size(co) <= o && facts::size(so) <= o && facts::size(cl) <= o && facts::size(sl)
            <= o,
        facts::size(d) <= 0x200_0000 * o,
        ex == dx * k - d * (cl * co),
        ey == dy * k - d * (cl * so),
        ez == dz * k - (d * o) * sl,
        facts::size(ex) <= b && facts::size(ey) <= b && facts::size(ez) <= b,
        facts::size(so * so + co * co - o * o) <= 1024 * (g * o),
    ensures
        facts::size(v) <= 0x100_0000_0000 * g,
{
    closeness::lemma_bounded(sl, co, o, o);
    closeness::lemma_bounded(sl, so, o, o);
    closeness::lemma_bounded(cl, o, o, o);
    closeness::lemma_bounded(sl, cl, o, o);
    let (f, h, j) = (sl * co, sl * so, cl * o);
    lemma_turned_errors(k, f, ex, h, ey, j, ez, b);
    let w = (cl * dz) * o - f * dx - h * dy;
    let (wx, wy, wz) = (f * dx, h * dy, (cl * dz) * o);
    assert(wz * k == j * (dz * k)) by (nonlinear_arith)
        requires
            wz == (cl * dz) * o,
            j == cl * o,
    ;
    assert(wx * k == f * (dx * k)) by (nonlinear_arith)
        requires
            wx == f * dx,
    ;
    assert(wy * k == h * (dy * k)) by (nonlinear_arith)
        requires
            wy == h * dy,
    ;
    assert(w * k == wz * k - wx * k - wy * k) by (nonlinear_arith)
        requires
            w == wz - wx - wy,
    ;
    let u = d * (sl * cl);
    let c = so * so + co * co - o * o;
    assert(j * (dz * k) == j * ez + u * (o * o)) by (nonlinear_arith)
        requires
            ez == dz * k - (d * o) * sl,
            j == cl * o,
            u == d * (sl * cl),
    ;
    assert(f * (dx * k) == f * ex + u * (co * co)) by (nonlinear_arith)
        requires
            ex == dx * k - d * (cl * co),
            f == sl * co,
            u == d * (sl * cl),
    ;
    assert(h * (dy * k) == h * ey + u * (so * so)) by (nonlinear_arith)
        requires
            ey == dy * k - d * (cl * so),
            h == sl * so,
            u == d * (sl * cl),
    ;
    assert(u * (o * o) - u * (co * co) - u * (so * so) == -(u * c)) by (nonlinear_arith)
        requires
            c == so * so + co * co - o * o,
    ;
    let q = k * k;
    closeness::lemma_bounded(d, sl * cl, 0x200_0000 * o, k);
    closeness::lemma_bounded(u, c, (0x200_0000 * o) * k, 1024 * (g * o));
    assert(((0x200_0000 * o) * k) * (1024 * (g * o)) == 0x8_0000_0000 * (g * q)) by (nonlinear_arith)
        requires
            k == o * o,
            q == k * k,
    ;
    assert(k * b == 0x8_0000_0000 * (g * q)) by (nonlinear_arith)
        requires
            b == 0x8_0000_0000 * (g * k),
            q == k * k,
    ;
    let z = v * k - w;
    closeness::lemma_bounded(z, k, 0x80_0000_0000 * (g * k), k);
    assert((0x80_0000_0000 * (g * k)) * k == 0x80_0000_0000 * (g * q)) by (nonlinear_arith)
        requires
            q == k * k,
    ;
    assert(v * q == z * k + w * k) by (nonlinear_arith)
        requires
            z == v * k - w,
            q == k * k,
    ;
    lemma_shared(v, q, g, k, k);
}

proof fn lemma_overhead_up(
    v: int,
    o: int,
    k: int,
    g: int,
    d: int,
    sl: int,
    cl: int,
    co: int,
    so: int,
    dx: int,
    dy: int,
    dz: int,
    ex: int,
    ey: int,
    ez: int,
    b: int,
)
    requires
        o > 0 && k > 0 && g > 0,
        k == o * o,
        b == 0x8_0000_0000 * (g * k),
        facts::size(v * k - ((cl * co) * dx + (cl * so) * dy + (sl * dz) * o)) <= 0x80_0000_0000 * (
        g * k),
        facts::size(co) <= o && facts::size(so) <= o && facts::size(cl) <= o && facts::size(sl)
            <= o,
        facts::size(d) <= 0x200_0000 * o,
        ex == dx * k - d * (cl * co),
        ey == dy * k - d * (cl * so),
        ez == dz * k - (d * o) * sl,
        facts::size(ex) <= b && facts::size(ey) <= b && facts::size(ez) <= b,
        facts::size(so * so + co * co - o * o) <= 1024 * (g * o),
        facts::size(sl * sl + cl * cl - o * o) <= 1024 * (g * o),
    ensures
        facts::size(v - d) <= 0x100_0000_0000 * g,
{
    closeness::lemma_bounded(cl, co, o, o);
    closeness::lemma_bounded(cl, so, o, o);
    closeness::lemma_bounded(sl, o, o, o);
    closeness::lemma_bounded(cl, cl, o, o);
    let (f, h, j) = (cl * co, cl * so, sl * o);
    lemma_turned_errors(k, f, ex, h, ey, j, ez, b);
    let w = f * dx + h * dy + (sl * dz) * o;
    let (wx, wy, wz) = (f * dx, h * dy, (sl * dz) * o);
    assert(wz * k == j * (dz * k)) by (nonlinear_arith)
        requires
            wz == (sl * dz) * o,
            j == sl * o,
    ;
    assert(wx * k == f * (dx * k)) by (nonlinear_arith)
        requires
            wx == f * dx,
    ;
    assert(wy * k == h * (dy * k)) by (nonlinear_arith)
        requires
            wy == h * dy,
    ;
    assert(w * k == wz * k + wx * k + wy * k) by (nonlinear_arith)
        requires
            w == wz + wx + wy,
    ;
    let u = d * (cl * cl);
    let (c, e) = (so * so + co * co - o * o, sl * sl + cl * cl - o * o);
    assert(j * (dz * k) == j * ez + d * (sl * sl) * k) by (nonlinear_arith)
        requires
            ez == dz * k - (d * o) * sl,
            j == sl * o,
            k == o * o,
    ;
    assert(f * (dx * k) == f * ex + u * (co * co)) by (nonlinear_arith)
        requires
            ex == dx * k - d * (cl * co),
            f == cl * co,
            u == d * (cl * cl),
    ;
    assert(h * (dy * k) == h * ey + u * (so * so)) by (nonlinear_arith)
        requires
            ey == dy * k - d * (cl * so),
            h == cl * so,
            u == d * (cl * cl),
    ;
    assert(u * (co * co) + u * (so * so) == u * c + u * k) by (nonlinear_arith)
        requires
            c == so * so + co * co - o * o,
            k == o * o,
    ;
    let q = k * k;
    assert(u * k + d * (sl * sl) * k == (d * k) * e + d * q) by (nonlinear_arith)
        requires
            u == d * (cl * cl),
            e == sl * sl + cl * cl - o * o,
            k == o * o,
            q == k * k,
    ;
    closeness::lemma_bounded(d, cl * cl, 0x200_0000 * o, k);
    closeness::lemma_bounded(d, k, 0x200_0000 * o, k);
    closeness::lemma_bounded(u, c, (0x200_0000 * o) * k, 1024 * (g * o));
    closeness::lemma_bounded(d * k, e, (0x200_0000 * o) * k, 1024 * (g * o));
    assert(((0x200_0000 * o) * k) * (1024 * (g * o)) == 0x8_0000_0000 * (g * q)) by (nonlinear_arith)
        requires
            k == o * o,
            q == k * k,
    ;
    assert(k * b == 0x8_0000_0000 * (g * q)) by (nonlinear_arith)
        requires
            b == 0x8_0000_0000 * (g * k),
            q == k * k,
    ;
    let z = v * k - w;
    closeness::lemma_bounded(z, k, 0x80_0000_0000 * (g * k), k);
    assert((0x80_0000_0000 * (g * k)) * k == 0x80_0000_0000 * (g * q)) by (nonlinear_arith)
        requires
            q == k * k,
    ;
    let r = v - d;
    assert(r * q == z * k + w * k - d * q) by (nonlinear_arith)
        requires
            z == v * k - w,
            q == k * k,
            r == v - d,
    ;
    lemma_shared(r, q, g, k, k);
}

} // verus!
