//! WGS84 geodetic -> ECEF -> local ENU tangent plane.
//!
//! Tracking is done in metres in a local East/North/Up frame rather than in degrees.
//! Degrees are not a metric space: a 0.01 deg error is 1.1 km of northing but only
//! 0.87 km of easting at Athens, and any filter run directly on lat/lon inherits that
//! distortion. Converting once at the sensor boundary keeps the estimator linear.
//!
//! Sines, cosines and arctangents come from the caller, who has a mathematics library
//! to ask. Everything around them is here.
use crate::double::facts;
use crate::double::{Double, ONE, ZERO};
use crate::laws::closeness;
use crate::laws::geometry;
use crate::laws::inverse;
use vstd::prelude::*;
use vstd::std_specs::ops::{AddSpecImpl, MulSpecImpl, SubSpecImpl};

verus! {

/// Semi-major axis, 6378137 m. The constants of this module are the bits of doubles.
pub const WGS84_A: u64 = 0x4158_54a6_4000_0000;

/// Flattening, 1 / 298.257223563.
pub const WGS84_F: u64 = 0x3f6b_775a_84f3_e128;

/// First eccentricity squared, f (2 - f).
pub const WGS84_E2: u64 = 0x3f7b_6b90_f1fe_94f0;

/// Semi-minor axis, a (1 - f).
pub const WGS84_B: u64 = 0x4158_3fc4_141c_97d0;

/// Second eccentricity squared, used by the inverse transform.
pub const WGS84_EP2: u64 = 0x3f7b_9adf_e197_dcd2;

/// 0.3048.
pub const FT_TO_M: u64 = 0x3fd3_81d7_dbf4_87fd;

/// 0.5144444.
pub const KT_TO_MS: u64 = 0x3fe0_7654_1a33_87ed;

/// One over `KT_TO_MS`.
pub const MS_TO_KT: u64 = 0x3fff_19fc_dbcd_0fc4;

/// `FT_TO_M` over 60.
pub const FPM_TO_MS: u64 = 0x3f74_cec4_1dd1_a21f;

/// Pi over 180.
pub const RAD_PER_DEG: u64 = 0x3f91_df46_a252_9d39;

/// 180 over pi.
pub const DEG_PER_RAD: u64 = 0x404c_a5dc_1a63_c1f8;

/// 360.
pub const FULL_TURN: u64 = 0x4076_8000_0000_0000;

/// 1e-10: below this the cosine of a latitude says "at a pole".
pub const POLAR: u64 = 0x3ddb_7cdf_d9d7_bdbb;

#[derive(Clone, Copy, Debug, PartialEq)]
pub struct Geodetic {
    pub lat_deg: Double,
    pub lon_deg: Double,
    pub alt_m: Double,
}

#[derive(Clone, Copy, Debug, PartialEq)]
pub struct Enu {
    pub e: Double,
    pub n: Double,
    pub u: Double,
}

/// The sine and the cosine of an angle.
#[derive(Clone, Copy, Debug, PartialEq)]
pub struct SinCos {
    pub sin: Double,
    pub cos: Double,
}

/// Earth-centred Earth-fixed position, metres.
#[derive(Clone, Copy, Debug, PartialEq)]
pub struct Ecef {
    pub x: Double,
    pub y: Double,
    pub z: Double,
}

/// Degrees to radians.
pub open spec fn radians(deg: Double) -> Double {
    deg.times(Double { bits: RAD_PER_DEG })
}

/// Radians to degrees.
pub open spec fn degrees(rad: Double) -> Double {
    rad.times(Double { bits: DEG_PER_RAD })
}

/// An angle in radians as a compass direction: degrees, without a negative sign.
pub open spec fn compass(rad: Double) -> Double {
    let deg = degrees(rad);
    if deg.below(Double { bits: ZERO }) {
        deg.plus(Double { bits: FULL_TURN })
    } else {
        deg
    }
}

pub fn to_radians(deg: Double) -> (r: Double)
    ensures
        r == radians(deg),
{
    deg * Double { bits: RAD_PER_DEG }
}

pub fn to_degrees(rad: Double) -> (r: Double)
    ensures
        r == degrees(rad),
{
    rad * Double { bits: DEG_PER_RAD }
}

pub fn compass_deg(rad: Double) -> (r: Double)
    ensures
        r == compass(rad),
{
    let deg = to_degrees(rad);
    if deg < (Double { bits: ZERO }) {
        deg + Double { bits: FULL_TURN }
    } else {
        deg
    }
}

impl Default for Enu {
    fn default() -> (r: Enu)
        ensures
            r == (Enu {
                e: Double { bits: ZERO },
                n: Double { bits: ZERO },
                u: Double { bits: ZERO },
            }),
    {
        Enu { e: Double { bits: ZERO }, n: Double { bits: ZERO }, u: Double { bits: ZERO } }
    }
}

impl std::ops::Sub for Enu {
    type Output = Enu;

    fn sub(self, other: Enu) -> Enu {
        Enu { e: self.e - other.e, n: self.n - other.n, u: self.u - other.u }
    }
}

impl SubSpecImpl for Enu {
    open spec fn obeys_sub_spec() -> bool {
        true
    }

    open spec fn sub_req(self, other: Enu) -> bool {
        true
    }

    open spec fn sub_spec(self, other: Enu) -> Enu {
        self.minus(other)
    }
}

impl std::ops::Add for Enu {
    type Output = Enu;

    fn add(self, other: Enu) -> Enu {
        Enu { e: self.e + other.e, n: self.n + other.n, u: self.u + other.u }
    }
}

impl AddSpecImpl for Enu {
    open spec fn obeys_add_spec() -> bool {
        true
    }

    open spec fn add_req(self, other: Enu) -> bool {
        true
    }

    open spec fn add_spec(self, other: Enu) -> Enu {
        self.plus(other)
    }
}

/// Scaling a displacement by seconds is how a velocity becomes an extrapolation.
impl std::ops::Mul<Double> for Enu {
    type Output = Enu;

    fn mul(self, k: Double) -> Enu {
        Enu { e: self.e * k, n: self.n * k, u: self.u * k }
    }
}

impl MulSpecImpl<Double> for Enu {
    open spec fn obeys_mul_spec() -> bool {
        true
    }

    open spec fn mul_req(self, k: Double) -> bool {
        true
    }

    open spec fn mul_spec(self, k: Double) -> Enu {
        self.scaled(k)
    }
}

impl Enu {
    pub open spec fn minus(self, other: Enu) -> Enu {
        Enu {
            e: self.e.minus(other.e),
            n: self.n.minus(other.n),
            u: self.u.minus(other.u),
        }
    }

    pub open spec fn plus(self, other: Enu) -> Enu {
        Enu { e: self.e.plus(other.e), n: self.n.plus(other.n), u: self.u.plus(other.u) }
    }

    pub open spec fn scaled(self, k: Double) -> Enu {
        Enu { e: self.e.times(k), n: self.n.times(k), u: self.u.times(k) }
    }

    /// The inner product of two vectors.
    pub open spec fn dot(self, other: Enu) -> Double {
        self.e.times(other.e).plus(self.n.times(other.n)).plus(self.u.times(other.u))
    }

    pub fn inner(self, other: Enu) -> (r: Double)
        ensures
            r == self.dot(other),
    {
        self.e * other.e + self.n * other.n + self.u * other.u
    }

    /// Horizontal magnitude, ignoring altitude.
    pub fn horiz(self) -> (r: Double)
        ensures
            r == self.e.distance(self.n),
    {
        self.e.hypot(self.n)
    }

    pub fn norm(self) -> (r: Double)
        ensures
            r == self.dot(self).root(),
    {
        self.inner(self).sqrt()
    }

    /// The two numbers whose arctangent, the first over the second, is the bearing.
    pub fn bearing_parts(self) -> (r: (Double, Double))
        ensures
            r == (self.e, self.n),
    {
        (self.e, self.n)
    }

    /// Compass bearing from the frame origin, degrees true. `angle` is the arctangent of
    /// `e` over `n`, in radians.
    pub fn bearing_deg(self, angle: Double) -> (r: Double)
        ensures
            r == compass(angle),
    {
        compass_deg(angle)
    }
}

/// Radius of curvature in the prime vertical at the latitude of this sine.
pub open spec fn curvature_radius(sin_lat: Double) -> Double {
    let one = Double { bits: ONE };
    (Double { bits: WGS84_A }).over(
        one.minus((Double { bits: WGS84_E2 }).times(sin_lat).times(sin_lat)).root(),
    )
}

pub fn prime_vertical(sin_lat: Double) -> (r: Double)
    ensures
        r == curvature_radius(sin_lat),
{
    let one = Double { bits: ONE };
    Double { bits: WGS84_A } / (one - Double { bits: WGS84_E2 } * sin_lat * sin_lat).sqrt()
}

impl Geodetic {
    /// The latitude and the longitude in radians: the angles to take sines of.
    pub fn angles(self) -> (r: (Double, Double))
        ensures
            r == (radians(self.lat_deg), radians(self.lon_deg)),
    {
        (to_radians(self.lat_deg), to_radians(self.lon_deg))
    }
}

impl Ecef {
    /// The two numbers whose arctangent, the first over the second, is the longitude.
    pub fn longitude_parts(self) -> (r: (Double, Double))
        ensures
            r == (self.y, self.x),
    {
        (self.y, self.x)
    }

    pub open spec fn of(alt_m: Double, lat: SinCos, lon: SinCos) -> Ecef {
        let n = curvature_radius(lat.sin);
        let level = (Double { bits: ONE }).minus(Double { bits: WGS84_E2 });
        Ecef {
            x: n.plus(alt_m).times(lat.cos).times(lon.cos),
            y: n.plus(alt_m).times(lat.cos).times(lon.sin),
            z: n.times(level).plus(alt_m).times(lat.sin),
        }
    }

    /// Distance from the axis of the Earth.
    pub open spec fn radius(self) -> Double {
        self.x.distance(self.y)
    }

    /// Altitude above the ellipsoid at the latitude of this sine and cosine.
    ///
    /// Radius over cosine degenerates at the poles, where the radius goes to zero.
    pub open spec fn altitude(self, lat: SinCos) -> Double {
        let n = curvature_radius(lat.sin);
        let level = (Double { bits: ONE }).minus(Double { bits: WGS84_E2 });
        if (Double { bits: POLAR }).below(lat.cos.absolute()) {
            self.radius().over(lat.cos).minus(n)
        } else {
            self.z.absolute().over(lat.sin.absolute()).minus(n.times(level))
        }
    }
}

impl Ecef {
    /// Altitude above the ellipsoid at the latitude of this sine and cosine.
    pub fn altitude_at(self, lat: SinCos) -> (r: Double)
        ensures
            r == self.altitude(lat),
    {
        let n = prime_vertical(lat.sin);
        let level = Double { bits: ONE } - Double { bits: WGS84_E2 };
        if (Double { bits: POLAR }) < lat.cos.abs() {
            self.x.hypot(self.y) / lat.cos - n
        } else {
            self.z.abs() / lat.sin.abs() - n * level
        }
    }
}

/// A position, given the sines and cosines of its latitude and longitude.
pub fn to_ecef(p: Geodetic, lat: SinCos, lon: SinCos) -> (r: Ecef)
    ensures
        r == Ecef::of(p.alt_m, lat, lon),
        closeness::within(p.alt_m, 0x100_0000) && geometry::turn(lat) && geometry::turn(lon)
            ==> geometry::is_placed(p.alt_m, lat, lon, r),
{
    proof {
        if closeness::within(p.alt_m, 0x100_0000) && geometry::turn(lat) && geometry::turn(lon) {
            geometry::law_earth_fixed_coordinates(p.alt_m, lat, lon);
        }
    }
    let n = prime_vertical(lat.sin);
    let level = Double { bits: ONE } - Double { bits: WGS84_E2 };
    Ecef {
        x: (n + p.alt_m) * lat.cos * lon.cos,
        y: (n + p.alt_m) * lat.cos * lon.sin,
        z: (n * level + p.alt_m) * lat.sin,
    }
}

/// Bowring's parametric latitude is the arctangent of the first over the second.
pub fn parametric_latitude(q: Ecef) -> (r: (Double, Double))
    ensures
        r == (
            q.z.times(Double { bits: WGS84_A }),
            q.radius().times(Double { bits: WGS84_B }),
        ),
        closeness::within(q.z, 0x200_0000) && closeness::within(q.radius(), 0x200_0000)
            ==> inverse::is_parametric(q, r),
{
    proof {
        if closeness::within(q.z, 0x200_0000) && closeness::within(q.radius(), 0x200_0000) {
            inverse::law_parametric_latitude(q);
        }
    }
    (q.z * Double { bits: WGS84_A }, q.x.hypot(q.y) * Double { bits: WGS84_B })
}

pub open spec fn cube(x: Double) -> Double {
    x.times(x.times(x))
}

/// The latitude, by Bowring's closed form: the arctangent of the first over the second,
/// where `theta` is of the parametric latitude. Accurate to well under a millimetre for
/// any altitude an aircraft will ever occupy.
pub fn geodetic_latitude(q: Ecef, theta: SinCos) -> (r: (Double, Double))
    ensures
        r == (
            q.z.plus(
                (Double { bits: WGS84_EP2 }).times(Double { bits: WGS84_B }).times(
                    cube(theta.sin),
                ),
            ),
            q.radius().minus(
                (Double { bits: WGS84_E2 }).times(Double { bits: WGS84_A }).times(
                    cube(theta.cos),
                ),
            ),
        ),
        closeness::within(q.z, 0x400_0000) && closeness::within(q.radius(), 0x400_0000)
            && geometry::turn(theta) ==> inverse::is_latitude(q, theta, r),
{
    proof {
        if closeness::within(q.z, 0x400_0000) && closeness::within(q.radius(), 0x400_0000)
            && geometry::turn(theta) {
            inverse::law_latitude(q, theta);
        }
    }
    let sin3 = theta.sin * (theta.sin * theta.sin);
    let cos3 = theta.cos * (theta.cos * theta.cos);
    (
        q.z + Double { bits: WGS84_EP2 } * Double { bits: WGS84_B } * sin3,
        q.x.hypot(q.y) - Double { bits: WGS84_E2 } * Double { bits: WGS84_A } * cos3,
    )
}

/// ECEF back to geodetic, given the latitude and longitude in radians and the sine and
/// cosine of the latitude.
///
/// Needed because the ENU "Up" axis is *not* altitude. It is height above the tangent
/// plane at the frame origin, and the Earth curves away from that plane as the square of
/// the range: about 17 km of droop at 460 km. An aircraft at the edge of a 250 NM
/// picture, cruising at 36,000 ft, sits roughly 19,000 ft *below* the Athens tangent
/// plane.
///
/// This does not change the tracking frame. ENU remains the estimation and screening
/// frame, where the curvature error is common-mode between two nearby aircraft and
/// cancels in their separation.
pub fn from_ecef(q: Ecef, lat: Double, lat_turn: SinCos, lon: Double) -> (r: Geodetic)
    ensures
        r == (Geodetic {
            lat_deg: degrees(lat),
            lon_deg: degrees(lon),
            alt_m: q.altitude(lat_turn),
        }),
{
    Geodetic { lat_deg: to_degrees(lat), lon_deg: to_degrees(lon), alt_m: q.altitude_at(lat_turn) }
}

/// A local tangent plane anchored at the sensor site.
#[derive(Clone, Copy, Debug)]
pub struct Frame {
    pub origin: Ecef,
    pub lat: SinCos,
    pub lon: SinCos,
    pub site: Geodetic,
}

impl Frame {
    /// The position `q` in this frame: the offset from the origin, rotated.
    pub open spec fn rotated(self, q: Ecef) -> Enu {
        let (dx, dy, dz) = (
            q.x.minus(self.origin.x),
            q.y.minus(self.origin.y),
            q.z.minus(self.origin.z),
        );
        let (lat, lon) = (self.lat, self.lon);
        Enu {
            e: lon.sin.negated().times(dx).plus(lon.cos.times(dy)),
            n: lat.sin.negated().times(lon.cos).times(dx).minus(
                lat.sin.times(lon.sin).times(dy),
            ).plus(lat.cos.times(dz)),
            u: lat.cos.times(lon.cos).times(dx).plus(lat.cos.times(lon.sin).times(dy)).plus(
                lat.sin.times(dz),
            ),
        }
    }

    /// The transpose of the forward rotation, back to the centre of the Earth.
    pub open spec fn unrotated(self, p: Enu) -> Ecef {
        let (lat, lon) = (self.lat, self.lon);
        Ecef {
            x: self.origin.x.plus(
                lon.sin.negated().times(p.e).minus(lat.sin.times(lon.cos).times(p.n)).plus(
                    lat.cos.times(lon.cos).times(p.u),
                ),
            ),
            y: self.origin.y.plus(
                lon.cos.times(p.e).minus(lat.sin.times(lon.sin).times(p.n)).plus(
                    lat.cos.times(lon.sin).times(p.u),
                ),
            ),
            z: self.origin.z.plus(lat.cos.times(p.n).plus(lat.sin.times(p.u))),
        }
    }

    /// The frame at `site`, given the sines and cosines of its latitude and longitude.
    pub fn new(site: Geodetic, lat: SinCos, lon: SinCos) -> (r: Frame)
        ensures
            r == (Frame { origin: Ecef::of(site.alt_m, lat, lon), lat, lon, site }),
    {
        Frame { origin: to_ecef(site, lat, lon), lat, lon, site }
    }

    /// A position in this frame, given the sines and cosines of its latitude and
    /// longitude.
    pub fn to_enu(&self, p: Geodetic, lat: SinCos, lon: SinCos) -> (r: Enu)
        ensures
            r == self.rotated(Ecef::of(p.alt_m, lat, lon)),
            closeness::within(p.alt_m, 0x100_0000) && geometry::turn(lat) && geometry::turn(lon)
                && geometry::nearby(self.origin) && geometry::turn(self.lat) && geometry::turn(
                self.lon,
            ) ==> geometry::is_local(*self, Ecef::of(p.alt_m, lat, lon), r),
    {
        let q = to_ecef(p, lat, lon);
        proof {
            if geometry::nearby(q) && geometry::nearby(self.origin) && geometry::turn(self.lat)
                && geometry::turn(self.lon) {
                geometry::law_local_coordinates(*self, q);
            }
        }
        let (dx, dy, dz) = (q.x - self.origin.x, q.y - self.origin.y, q.z - self.origin.z);
        let (a, b) = (self.lat, self.lon);
        Enu {
            e: b.sin.opposite() * dx + b.cos * dy,
            n: a.sin.opposite() * b.cos * dx - a.sin * b.sin * dy + a.cos * dz,
            u: a.cos * b.cos * dx + a.cos * b.sin * dy + a.sin * dz,
        }
    }

    /// A local position back to the Earth-fixed axes.
    pub fn from_enu(&self, p: Enu) -> (r: Ecef)
        ensures
            r == self.unrotated(p),
            geometry::at_hand(p) && geometry::nearby(self.origin) && geometry::turn(self.lat)
                && geometry::turn(self.lon) ==> inverse::is_back(*self, p, r),
    {
        proof {
            if geometry::at_hand(p) && geometry::nearby(self.origin) && geometry::turn(self.lat)
                && geometry::turn(self.lon) {
                inverse::law_back_to_the_earth(*self, p);
            }
        }
        // Transpose of the forward rotation. For an orthonormal matrix the transpose is
        // the inverse.
        let (a, b) = (self.lat, self.lon);
        let dx = b.sin.opposite() * p.e - a.sin * b.cos * p.n + a.cos * b.cos * p.u;
        let dy = b.cos * p.e - a.sin * b.sin * p.n + a.cos * b.sin * p.u;
        let dz = a.cos * p.n + a.sin * p.u;
        Ecef { x: self.origin.x + dx, y: self.origin.y + dy, z: self.origin.z + dz }
    }

    /// The inverse of `to_enu`: a local ENU position back to latitude, longitude and
    /// true altitude above the ellipsoid.
    ///
    /// The angles are those of `from_enu(p)`: its longitude is the arctangent of y over
    /// x, its latitude comes by way of `parametric_latitude` and `geodetic_latitude`.
    /// Used by the picture, not by the tracker.
    pub fn to_geodetic(&self, p: Enu, lat: Double, lat_turn: SinCos, lon: Double) -> (r: Geodetic)
        ensures
            r == (Geodetic {
                lat_deg: degrees(lat),
                lon_deg: degrees(lon),
                alt_m: self.unrotated(p).altitude(lat_turn),
            }),
    {
        from_ecef(self.from_enu(p), lat, lat_turn, lon)
    }
}

/// The site is the origin of its own frame.
pub proof fn law_site_is_the_origin(frame: Frame)
    requires
        frame.origin.x.finite() && frame.origin.y.finite() && frame.origin.z.finite(),
        frame.lat.sin.magnitude() <= ONE && frame.lat.cos.magnitude() <= ONE,
        frame.lon.sin.magnitude() <= ONE && frame.lon.cos.magnitude() <= ONE,
    ensures
        frame.rotated(frame.origin).e.value() == 0,
        frame.rotated(frame.origin).n.value() == 0,
        frame.rotated(frame.origin).u.value() == 0,
{
    let (q, lat, lon) = (frame.origin, frame.lat, frame.lon);
    facts::lemma_units_order(0, 0);
    facts::lemma_minus_sign(q.x, q.x);
    facts::lemma_minus_sign(q.y, q.y);
    facts::lemma_minus_sign(q.z, q.z);
    let (dx, dy, dz) = (q.x.minus(q.x), q.y.minus(q.y), q.z.minus(q.z));
    let (a, b) = (lon.sin.negated(), lat.sin.negated());
    assert(a.magnitude() == lon.sin.magnitude() && b.magnitude() == lat.sin.magnitude());
    facts::lemma_times_zero(a, dx);
    facts::lemma_times_zero(lon.cos, dy);
    facts::lemma_plus_zero(a.times(dx), lon.cos.times(dy));
    facts::lemma_fraction_shrinks_magnitude(b, lon.cos);
    facts::lemma_fraction_shrinks_magnitude(lat.sin, lon.sin);
    facts::lemma_fraction_shrinks_magnitude(lat.cos, lon.cos);
    facts::lemma_fraction_shrinks_magnitude(lat.cos, lon.sin);
    let (n1, n2, n3) = (
        b.times(lon.cos).times(dx),
        lat.sin.times(lon.sin).times(dy),
        lat.cos.times(dz),
    );
    facts::lemma_times_zero(b.times(lon.cos), dx);
    facts::lemma_times_zero(lat.sin.times(lon.sin), dy);
    facts::lemma_times_zero(lat.cos, dz);
    facts::lemma_minus_sign(n1, n2);
    facts::lemma_plus_zero(n1.minus(n2), n3);
    let (u1, u2, u3) = (
        lat.cos.times(lon.cos).times(dx),
        lat.cos.times(lon.sin).times(dy),
        lat.sin.times(dz),
    );
    facts::lemma_times_zero(lat.cos.times(lon.cos), dx);
    facts::lemma_times_zero(lat.cos.times(lon.sin), dy);
    facts::lemma_times_zero(lat.sin, dz);
    facts::lemma_plus_zero(u1, u2);
    facts::lemma_plus_zero(u1.plus(u2), u3);
}

} // verus!
