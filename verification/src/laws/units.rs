//! Units of measurement, against the numbers that define them.
use crate::double::facts;
use crate::double::rounding;
use crate::double::{Double, ZERO};
use crate::geo;
use crate::geo::{
    DEG_PER_RAD, FPM_TO_MS, FT_TO_M, FULL_TURN, KT_TO_MS, MS_TO_KT, POLAR, RAD_PER_DEG,
};
use crate::ingest::adsb;
use crate::laws::closeness;
use vstd::arithmetic::power2::*;
use vstd::prelude::*;

verus! {

/// Pi times 10^20.
pub open spec fn pi() -> int {
    314_159_265_358_979_323_846
}

/// 10^20.
pub open spec fn places() -> int {
    100_000_000_000_000_000_000
}

/// The value of a double by its significand and exponent.
pub proof fn lemma_constant(bits: u64, q: nat, i: nat, w: nat, v: nat)
    requires
        0x10_0000_0000_0000 <= q < 0x20_0000_0000_0000,
        bits == (1014 + i) * 0x10_0000_0000_0000 + q,
        i <= 60,
        w == pow2(i),
        v == q * w,
    ensures
        (Double { bits }).finite(),
        (Double { bits }).value() == v * closeness::grain(),
{
    rounding::lemma_units_at(1014 + i, q);
    lemma_pow2_adds(i, 1014);
    let x = Double { bits };
    assert(x.magnitude() == bits && !x.negative());
    let g = closeness::grain();
    assert(q * (w * g) == (q * w) * g) by (nonlinear_arith);
}

/// A foot is 0.3048 metres, a knot 0.5144444 metres per second, a foot per minute 0.00508; a
/// half turn is 180 degrees or pi radians, and a full one is 360.
pub proof fn law_units()
    ensures
        closeness::near(Double { bits: FT_TO_M }, 3048 * closeness::whole(), 10_000, 32),
        closeness::near(Double { bits: KT_TO_MS }, 5144444 * closeness::whole(), 10_000_000, 64),
        closeness::near(Double { bits: MS_TO_KT }, 10_000_000 * closeness::whole(), 5144444, 512),
        closeness::near(Double { bits: FPM_TO_MS }, 508 * closeness::whole(), 100_000, 2),
        closeness::near(
            Double { bits: RAD_PER_DEG },
            pi() * closeness::whole(),
            180 * places(),
            4,
        ),
        closeness::near(
            Double { bits: DEG_PER_RAD },
            (180 * places()) * closeness::whole(),
            pi(),
            8192,
        ),
        (Double { bits: FULL_TURN }).value() == 360 * closeness::whole(),
        (Double { bits: FULL_TURN }).finite(),
        closeness::within(Double { bits: FT_TO_M }, 1),
        closeness::within(Double { bits: KT_TO_MS }, 1),
        closeness::within(Double { bits: RAD_PER_DEG }, 1),
        closeness::within(Double { bits: DEG_PER_RAD }, 58),
        closeness::within(Double { bits: FULL_TURN }, 360),
{
    closeness::lemma_grains();
    lemma2_to64();
    let g = closeness::grain();
    assert(0x13_81d7_dbf4_87fd * 64 == 351410474604166976) by (nonlinear_arith);
    lemma_constant(FT_TO_M, 0x13_81d7_dbf4_87fd, 6, 64, 351410474604166976);
    assert(0x10_7654_1a33_87ed * 128 == 593114011684566656) by (nonlinear_arith);
    lemma_constant(KT_TO_MS, 0x10_7654_1a33_87ed, 7, 128, 593114011684566656);
    assert(0x1f_19fc_dbcd_0fc4 * 256 == 2241100310561932288) by (nonlinear_arith);
    lemma_constant(MS_TO_KT, 0x1f_19fc_dbcd_0fc4, 8, 256, 2241100310561932288);
    assert(0x14_cec4_1dd1_a21f * 1 == 5856841243402783) by (nonlinear_arith);
    lemma_constant(FPM_TO_MS, 0x14_cec4_1dd1_a21f, 0, 1, 5856841243402783);
    assert(0x11_df46_a252_9d39 * 4 == 20122276272436452) by (nonlinear_arith);
    lemma_constant(RAD_PER_DEG, 0x11_df46_a252_9d39, 2, 4, 20122276272436452);
    assert(0x1c_a5dc_1a63_c1f8 * 8192 == 66057536323845029888) by (nonlinear_arith);
    lemma_constant(DEG_PER_RAD, 0x1c_a5dc_1a63_c1f8, 13, 8192, 66057536323845029888);
    assert(0x16_8000_0000_0000 * 65536 == 415051741658464911360) by (nonlinear_arith);
    lemma_constant(FULL_TURN, 0x16_8000_0000_0000, 16, 65536, 415051741658464911360);
    let (p, h) = (pi(), 180 * places());
    assert(20122276272436452 * h == 362200972903856136000000000000000000000) by (nonlinear_arith)
        requires
            h == 18_000_000_000_000_000_000_000,
    ;
    assert(0x1000_0000_0000_0000 * p == 362200972903856142118911541506469789696) by (nonlinear_arith)
        requires
            p == 314_159_265_358_979_323_846,
    ;
    lemma_fraction(Double { bits: RAD_PER_DEG }, 20122276272436452, p, h, 4);
    assert(66057536323845029888 * p == 20752587082923246287983585636081901109248) by (nonlinear_arith)
        requires
            p == 314_159_265_358_979_323_846,
    ;
    assert(0x1000_0000_0000_0000 * h == 20752587082923245568000000000000000000000) by (nonlinear_arith)
        requires
            h == 18_000_000_000_000_000_000_000,
    ;
    lemma_fraction(Double { bits: DEG_PER_RAD }, 66057536323845029888, h, p, 8192);
}

/// A double whose value is a whole number of grains, against a fraction.
pub proof fn lemma_fraction(x: Double, v: int, p: int, d: int, t: int)
    requires
        x.finite(),
        x.value() == v * closeness::grain(),
        facts::size(v * d - 0x1000_0000_0000_0000 * p) <= t * d,
    ensures
        closeness::near(x, p * closeness::whole(), d, t),
{
    closeness::lemma_grains();
    let (g, o) = (closeness::grain(), closeness::whole());
    let z = v * d - 0x1000_0000_0000_0000 * p;
    assert((v * g) * d - p * o == z * g) by (nonlinear_arith)
        requires
            z == v * d - 0x1000_0000_0000_0000 * p,
            o == 0x1000_0000_0000_0000 * g,
    ;
    closeness::lemma_size(z, g);
    let s = facts::size(z);
    assert(s * g <= t * (g * d)) by (nonlinear_arith)
        requires
            s <= t * d,
            g > 0,
    ;
}

/// The cosine below which a latitude counts as that of a pole is 1e-10.
pub proof fn law_polar_cosine()
    ensures
        closeness::near(Double { bits: POLAR }, closeness::whole(), 10_000_000_000, 1),
{
    closeness::lemma_grains();
    rounding::lemma_units_at(988, 0x1b_7cdf_d9d7_bdbb);
    lemma_pow2_adds(26, 988);
    lemma2_to64();
    let p = pow2(988);
    assert(closeness::grain() == 0x400_0000 * p);
    let x = Double { bits: POLAR };
    assert(x.magnitude() == POLAR && !x.negative());
    assert(x.value() == 0x1b_7cdf_d9d7_bdbb * p);
}

/// Degrees become radians: 180 of them make pi.
pub proof fn law_radians(deg: Double)
    requires
        closeness::within(deg, 360),
    ensures
        closeness::near(geo::radians(deg), deg.value() * pi(), 180 * places(), 47522),
        closeness::within(geo::radians(deg), 361),
{
    law_units();
    closeness::lemma_grains();
    let o = closeness::whole();
    let c = Double { bits: RAD_PER_DEG };
    let (v, p, d) = (deg.value(), pi(), 180 * places());
    closeness::lemma_itself(deg);
    closeness::lemma_times(deg, v, 1, 0, 360, c, p * o, d, 4, 1);
    assert(v * (p * o) == (v * p) * o) by (nonlinear_arith);
    assert(1 * d * o == d * o);
    closeness::lemma_reduced(geo::radians(deg), v * p, d, 47522, o);
}

/// Radians become degrees: pi of them make 180.
pub proof fn law_degrees(rad: Double)
    requires
        closeness::within(rad, 4),
    ensures
        closeness::near(geo::degrees(rad), rad.value() * (180 * places()), pi(), 62466),
        closeness::within(geo::degrees(rad), 233),
        rad.value() >= 0 ==> geo::degrees(rad).value() >= 0,
        rad.value() <= 0 ==> geo::degrees(rad).value() <= 0,
{
    law_units();
    closeness::lemma_grains();
    let o = closeness::whole();
    let c = Double { bits: DEG_PER_RAD };
    let (v, p, d) = (rad.value(), pi(), 180 * places());
    closeness::lemma_itself(rad);
    closeness::lemma_times(rad, v, 1, 0, 4, c, d * o, p, 8192, 58);
    assert(v * (d * o) == (v * d) * o) by (nonlinear_arith);
    assert(1 * p * o == p * o);
    closeness::lemma_reduced(geo::degrees(rad), v * d, p, 62466, o);
    facts::lemma_times_error(rad, c);
    facts::lemma_units_order(DEG_PER_RAD as nat, 0);
    let w = c.value();
    assert(v >= 0 ==> v * w >= 0) by (nonlinear_arith)
        requires
            w > 0,
    ;
    assert(v <= 0 ==> v * w <= 0) by (nonlinear_arith)
        requires
            w > 0,
    ;
}

/// A compass direction is an angle in degrees from 0 to 360: that of the angle itself where
/// this is not negative, and otherwise a full turn more.
pub proof fn law_compass(rad: Double)
    requires
        closeness::within(rad, 4),
    ensures
        ({
            let (r, v) = (geo::compass(rad), rad.value());
            &&& r.finite() && 0 <= r.value() <= 360 * closeness::whole()
            &&& v >= 0 ==> closeness::near(r, v * (180 * places()), pi(), 62466)
            &&& geo::degrees(rad).value() < 0 ==> closeness::near(
                r,
                v * (180 * places()) + (360 * closeness::whole()) * pi(),
                pi(),
                138371,
            )
        }),
{
    law_degrees(rad);
    law_units();
    closeness::lemma_grains();
    facts::lemma_units_order(0, 0);
    let (o, v) = (closeness::whole(), rad.value());
    let (deg, full, zero) = (
        geo::degrees(rad),
        Double { bits: FULL_TURN },
        Double { bits: ZERO },
    );
    if deg.below(zero) {
        closeness::lemma_itself(full);
        closeness::lemma_expanded(full, 360 * o, 1, 0, pi());
        assert(1 * pi() == pi());
        closeness::lemma_plus(
            deg,
            v * (180 * places()),
            62466,
            233,
            full,
            (360 * o) * pi(),
            0,
            360,
            pi(),
        );
        facts::lemma_plus_order(full, deg, zero);
        facts::lemma_plus_zero(full, zero);
        facts::lemma_plus_commutes(full, deg);
        facts::lemma_plus_error(deg, full);
    }
}

/// Feet become metres, 10000 of them 3048.
pub proof fn law_metres(feet: Double)
    requires
        closeness::within(feet, 0x10_0000),
    ensures
        closeness::near(adsb::metres(feet), feet.value() * 3048, 10_000, 167772162),
        closeness::within(adsb::metres(feet), 0x10_0001),
{
    law_units();
    closeness::lemma_grains();
    let o = closeness::whole();
    let c = Double { bits: FT_TO_M };
    let v = feet.value();
    closeness::lemma_itself(feet);
    closeness::lemma_times(feet, v, 1, 0, 0x10_0000, c, 3048 * o, 10_000, 32, 1);
    assert(v * (3048 * o) == (v * 3048) * o) by (nonlinear_arith);
    assert(1 * 10_000 * o == 10_000 * o);
    closeness::lemma_reduced(adsb::metres(feet), v * 3048, 10_000, 167772162, o);
}

} // verus!
