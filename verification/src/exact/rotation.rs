//! The local frame: a rigid rotation, and the way back from it.
use vstd::prelude::*;

verus! {

/// The sine and the cosine of an angle, times the radius of a circle.
pub struct Turn {
    pub sin: int,
    pub cos: int,
}

impl Turn {
    /// A point of the circle: the squares of sine and cosine add up to one.
    pub open spec fn on_circle(self, radius: int) -> bool {
        self.sin * self.sin + self.cos * self.cos == radius * radius
    }
}

/// Three coordinates, Earth-fixed or local.
pub struct Point {
    pub x: int,
    pub y: int,
    pub z: int,
}

impl Point {
    pub open spec fn minus(self, other: Point) -> Point {
        Point { x: self.x - other.x, y: self.y - other.y, z: self.z - other.z }
    }

    pub open spec fn times(self, k: int) -> Point {
        Point { x: self.x * k, y: self.y * k, z: self.z * k }
    }

    /// The square of the distance from the origin.
    pub open spec fn norm2(self) -> int {
        self.x * self.x + self.y * self.y + self.z * self.z
    }
}

/// A local tangent plane, its angles on a circle of this radius.
pub struct Plane {
    pub origin: Point,
    pub lat: Turn,
    pub lon: Turn,
    pub radius: int,
}

impl Plane {
    pub open spec fn valid(self) -> bool {
        self.lat.on_circle(self.radius) && self.lon.on_circle(self.radius) && self.radius > 0
    }

    /// An Earth-fixed direction as east, north and up, times the square of the radius.
    pub open spec fn turned(self, d: Point) -> Point {
        let (lat, lon, k) = (self.lat, self.lon, self.radius);
        let h = lon.cos * d.x + lon.sin * d.y;
        Point {
            x: k * (-lon.sin * d.x + lon.cos * d.y),
            y: -lat.sin * h + lat.cos * (k * d.z),
            z: lat.cos * h + lat.sin * (k * d.z),
        }
    }

    /// The transpose: east, north and up as an Earth-fixed direction, times the square of
    /// the radius.
    pub open spec fn turned_back(self, p: Point) -> Point {
        let (lat, lon, k) = (self.lat, self.lon, self.radius);
        let h = -lat.sin * p.y + lat.cos * p.z;
        Point {
            x: -lon.sin * (k * p.x) + lon.cos * h,
            y: lon.cos * (k * p.x) + lon.sin * h,
            z: k * (lat.cos * p.y + lat.sin * p.z),
        }
    }

    /// The position `q` in this frame, times the square of the radius.
    pub open spec fn rotated(self, q: Point) -> Point {
        self.turned(q.minus(self.origin))
    }
}

/// Turning about one axis, there and back.
proof fn lemma_circle(s: int, c: int, x: int, y: int)
    ensures
        -s * (-s * x + c * y) + c * (c * x + s * y) == (s * s + c * c) * x,
        c * (-s * x + c * y) + s * (c * x + s * y) == (s * s + c * c) * y,
        (-s * x + c * y) * (-s * x + c * y) + (c * x + s * y) * (c * x + s * y) == (s * s + c * c)
            * (x * x + y * y),
{
    let (sx, sy, cx, cy) = (s * x, s * y, c * x, c * y);
    assert(-s * x == -sx) by (nonlinear_arith)
        requires
            sx == s * x,
    ;
    assert(-s * (cy - sx) == s * sx - s * cy) by (nonlinear_arith);
    assert(c * (cx + sy) == c * cx + c * sy) by (nonlinear_arith);
    assert(c * (cy - sx) == c * cy - c * sx) by (nonlinear_arith);
    assert(s * (cx + sy) == s * cx + s * sy) by (nonlinear_arith);
    assert(s * cy == c * sy && c * sx == s * cx) by (nonlinear_arith)
        requires
            cy == c * y,
            sy == s * y,
            sx == s * x,
            cx == c * x,
    ;
    assert(s * sx == (s * s) * x && c * cx == (c * c) * x) by (nonlinear_arith)
        requires
            sx == s * x,
            cx == c * x,
    ;
    assert(s * sy == (s * s) * y && c * cy == (c * c) * y) by (nonlinear_arith)
        requires
            sy == s * y,
            cy == c * y,
    ;
    assert((s * s + c * c) * x == (s * s) * x + (c * c) * x) by (nonlinear_arith);
    assert((s * s + c * c) * y == (s * s) * y + (c * c) * y) by (nonlinear_arith);
    assert((cy - sx) * (cy - sx) == cy * cy - 2 * (cy * sx) + sx * sx) by (nonlinear_arith);
    assert((cx + sy) * (cx + sy) == cx * cx + 2 * (cx * sy) + sy * sy) by (nonlinear_arith);
    assert(cy * sx == cx * sy) by (nonlinear_arith)
        requires
            cy == c * y,
            sx == s * x,
            cx == c * x,
            sy == s * y,
    ;
    assert(cy * cy == (c * c) * (y * y) && sy * sy == (s * s) * (y * y)) by (nonlinear_arith)
        requires
            cy == c * y,
            sy == s * y,
    ;
    assert(cx * cx == (c * c) * (x * x) && sx * sx == (s * s) * (x * x)) by (nonlinear_arith)
        requires
            cx == c * x,
            sx == s * x,
    ;
    let (a, b, m, n) = (s * s, c * c, x * x, y * y);
    assert((a + b) * (m + n) == a * m + a * n + b * m + b * n) by (nonlinear_arith);
}

proof fn lemma_regroup(k: int, x: int)
    ensures
        (k * k) * (k * x) == k * ((k * k) * x),
        (k * k) * ((k * k) * x) == x * ((k * k) * (k * k)),
{
    let n = k * k;
    assert(n * (k * x) == k * (n * x)) by (nonlinear_arith);
    assert(n * (n * x) == x * (n * n)) by (nonlinear_arith);
}

/// The way back from a frame is the exact inverse of the way in: both together give the
/// direction, times the fourth power of the radius.
pub proof fn law_the_transpose_is_the_inverse(plane: Plane, d: Point)
    requires
        plane.valid(),
    ensures
        ({
            let k = plane.radius;
            &&& plane.turned_back(plane.turned(d)) == d.times((k * k) * (k * k))
            &&& plane.turned(plane.turned_back(d)) == d.times((k * k) * (k * k))
        }),
{
    lemma_there_and_back(plane, d);
    lemma_back_and_there(plane, d);
}

proof fn lemma_there_and_back(plane: Plane, d: Point)
    requires
        plane.valid(),
    ensures
        ({
            let k = plane.radius;
            plane.turned_back(plane.turned(d)) == d.times((k * k) * (k * k))
        }),
{
    let (s, c, a, b) = (plane.lat.sin, plane.lat.cos, plane.lon.sin, plane.lon.cos);
    let k = plane.radius;
    let n = k * k;
    let p = plane.turned(d);
    let h = b * d.x + a * d.y;
    let e = -a * d.x + b * d.y;
    // About the east: the horizontal part and the third coordinate come back.
    lemma_circle(s, c, h, k * d.z);
    assert(-s * p.y + c * p.z == n * h);
    assert(c * p.y + s * p.z == n * (k * d.z));
    // About the axis of the Earth.
    lemma_circle(a, b, d.x, d.y);
    assert(k * p.x == n * e) by (nonlinear_arith)
        requires
            p.x == k * e,
            n == k * k,
    ;
    assert(-a * (n * e) + b * (n * h) == n * (-a * e + b * h)) by (nonlinear_arith);
    assert(b * (n * e) + a * (n * h) == n * (b * e + a * h)) by (nonlinear_arith);
    lemma_regroup(k, d.x);
    lemma_regroup(k, d.y);
    lemma_regroup(k, d.z);
    assert(k * (n * (k * d.z)) == n * (n * d.z)) by (nonlinear_arith)
        requires
            n == k * k,
    ;
}

proof fn lemma_back_and_there(plane: Plane, p: Point)
    requires
        plane.valid(),
    ensures
        ({
            let k = plane.radius;
            plane.turned(plane.turned_back(p)) == p.times((k * k) * (k * k))
        }),
{
    let (s, c, a, b) = (plane.lat.sin, plane.lat.cos, plane.lon.sin, plane.lon.cos);
    let k = plane.radius;
    let n = k * k;
    let d = plane.turned_back(p);
    let h = -s * p.y + c * p.z;
    let g = c * p.y + s * p.z;
    let e = k * p.x;
    lemma_circle(a, b, e, h);
    assert(-a * d.x + b * d.y == n * e);
    assert(b * d.x + a * d.y == n * h);
    lemma_circle(s, c, p.y, p.z);
    assert(k * d.z == n * g) by (nonlinear_arith)
        requires
            d.z == k * g,
            n == k * k,
    ;
    assert(-s * (n * h) + c * (n * g) == n * (-s * h + c * g)) by (nonlinear_arith);
    assert(c * (n * h) + s * (n * g) == n * (c * h + s * g)) by (nonlinear_arith);
    lemma_regroup(k, p.x);
    lemma_regroup(k, p.y);
    lemma_regroup(k, p.z);
    assert(k * (n * (k * p.x)) == n * (n * p.x)) by (nonlinear_arith)
        requires
            n == k * k,
    ;
}

/// Turning keeps lengths: their squares come times the fourth power of the radius.
proof fn lemma_lengths(plane: Plane, d: Point)
    requires
        plane.valid(),
    ensures
        ({
            let k = plane.radius;
            plane.turned(d).norm2() == ((k * k) * (k * k)) * d.norm2()
        }),
{
    let (s, c, a, b) = (plane.lat.sin, plane.lat.cos, plane.lon.sin, plane.lon.cos);
    let k = plane.radius;
    let n = k * k;
    let p = plane.turned(d);
    let h = b * d.x + a * d.y;
    let e = -a * d.x + b * d.y;
    lemma_circle(s, c, h, k * d.z);
    lemma_circle(a, b, d.x, d.y);
    let (ee, hh, zz) = (e * e, h * h, d.z * d.z);
    assert(p.x * p.x == n * ee) by (nonlinear_arith)
        requires
            p.x == k * e,
            n == k * k,
            ee == e * e,
    ;
    assert((k * d.z) * (k * d.z) == n * zz) by (nonlinear_arith)
        requires
            n == k * k,
            zz == d.z * d.z,
    ;
    assert(p.y * p.y + p.z * p.z == n * (hh + n * zz));
    let xy = d.x * d.x + d.y * d.y;
    assert(ee + hh == n * xy);
    assert(n * ee + n * (hh + n * zz) == n * ((ee + hh) + n * zz)) by (nonlinear_arith);
    assert(n * (n * xy + n * zz) == (n * n) * (xy + zz)) by (nonlinear_arith);
}

/// A frame is a rigid rotation: two points are as far apart in it as they are, and so in
/// every frame. Squares of distances come times the fourth power of the radius.
pub proof fn law_frames_keep_distances(plane: Plane, other: Plane, p: Point, q: Point)
    requires
        plane.valid(),
        other.valid(),
        plane.radius == other.radius,
    ensures
        ({
            let k = plane.radius;
            let apart = plane.rotated(p).minus(plane.rotated(q)).norm2();
            &&& apart == ((k * k) * (k * k)) * p.minus(q).norm2()
            &&& apart == other.rotated(p).minus(other.rotated(q)).norm2()
        }),
{
    lemma_difference(plane, p, q);
    lemma_difference(other, p, q);
    lemma_lengths(plane, p.minus(q));
    lemma_lengths(other, p.minus(q));
}

proof fn lemma_linear(k: int, a: int, b: int)
    ensures
        k * a - k * b == k * (a - b),
{
    assert(k * a - k * b == k * (a - b)) by (nonlinear_arith);
}

proof fn lemma_difference(plane: Plane, p: Point, q: Point)
    ensures
        plane.rotated(p).minus(plane.rotated(q)) == plane.turned(p.minus(q)),
{
    let (lat, lon, o, k) = (plane.lat, plane.lon, plane.origin, plane.radius);
    let (d, g) = (p.minus(o), q.minus(o));
    let m = p.minus(q);
    lemma_linear(-lon.sin, d.x, g.x);
    lemma_linear(lon.cos, d.y, g.y);
    lemma_linear(lon.cos, d.x, g.x);
    lemma_linear(lon.sin, d.y, g.y);
    lemma_linear(k, d.z, g.z);
    let (ed, eg) = (-lon.sin * d.x + lon.cos * d.y, -lon.sin * g.x + lon.cos * g.y);
    let (hd, hg) = (lon.cos * d.x + lon.sin * d.y, lon.cos * g.x + lon.sin * g.y);
    lemma_linear(k, ed, eg);
    lemma_linear(-lat.sin, hd, hg);
    lemma_linear(lat.cos, hd, hg);
    lemma_linear(lat.cos, k * d.z, k * g.z);
    lemma_linear(lat.sin, k * d.z, k * g.z);
    assert(ed - eg == -lon.sin * m.x + lon.cos * m.y);
    assert(hd - hg == lon.cos * m.x + lon.sin * m.y);
}

impl Plane {
    /// The Earth-fixed position over the site at this altitude, times the square of the
    /// radius. `n` is the radius of curvature, `m` is that less the eccentricity squared
    /// times it.
    pub open spec fn over_site(self, n: int, m: int, alt: int) -> Point {
        Point {
            x: (self.lat.cos * self.lon.cos) * (n + alt),
            y: (self.lat.cos * self.lon.sin) * (n + alt),
            z: (self.radius * self.lat.sin) * (m + alt),
        }
    }
}

/// What is higher over the site by `h` is up by `h`, and neither east nor north.
pub proof fn law_altitude_over_the_site_is_up(plane: Plane, n: int, m: int, alt: int, h: int)
    requires
        plane.valid(),
    ensures
        ({
            let k = plane.radius;
            let rise = plane.over_site(n, m, alt + h).minus(plane.over_site(n, m, alt));
            plane.turned(rise) == (Point { x: 0, y: 0, z: h }).times((k * k) * (k * k))
        }),
{
    let (lat, lon, k) = (plane.lat, plane.lon, plane.radius);
    let up = Point { x: 0, y: 0, z: h };
    lemma_back_and_there(plane, up);
    assert(-lat.sin * 0 == 0 && lat.cos * 0 == 0 && k * 0 == 0) by (nonlinear_arith);
    assert(-lon.sin * (k * 0) == 0 && lon.cos * (k * 0) == 0) by (nonlinear_arith);
    assert(lon.cos * (lat.cos * h) == (lat.cos * lon.cos) * h) by (nonlinear_arith);
    assert(lon.sin * (lat.cos * h) == (lat.cos * lon.sin) * h) by (nonlinear_arith);
    assert(k * (lat.sin * h) == (k * lat.sin) * h) by (nonlinear_arith);
    lemma_linear(lat.cos * lon.cos, n + (alt + h), n + alt);
    lemma_linear(lat.cos * lon.sin, n + (alt + h), n + alt);
    lemma_linear(k * lat.sin, m + (alt + h), m + alt);
    let rise = plane.over_site(n, m, alt + h).minus(plane.over_site(n, m, alt));
    assert(rise == plane.turned_back(up));
}

} // verus!
