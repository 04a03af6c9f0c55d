//! The closest approach of two bare states, in the shape that a C or C++ caller wants it:
//! a status code, and an answer written in place.
//!
//! Rules held on this boundary:
//!   * every reference may be missing; a missing one returns an error code.
//!   * the answer is written on success and left alone on any error.
//!   * no panic is allowed to unwind into the caller, so every entry point is panic-free
//!     for every argument.
//!   * no allocation crosses the boundary, so there is no question of which allocator
//!     frees what.
//!
//! Matching C header:
//!
//! ```c
//! typedef struct { double e, n, u, ve, vn, vu; } aether_state_t;
//! typedef struct { double t_cpa, horiz_m, vert_m, closing_ms; } aether_cpa_t;
//!
//! int aether_cpa(const aether_state_t *a, const aether_state_t *b,
//!                double horizon_s, aether_cpa_t *out);
//! ```
use crate::approach;
use crate::approach::approach_time;
use crate::conjunction;
use crate::double::facts;
use crate::double::{Double, ZERO};
use crate::geo::Enu;
use crate::track::{Track, TrackView};
use vstd::prelude::*;

verus! {

pub const AETHER_OK: i32 = 0;

pub const AETHER_ERR_NULL: i32 = -1;

pub const AETHER_ERR_NAN: i32 = -2;

/// Position and velocity in a local ENU frame, metres and metres per second.
#[derive(Clone, Copy, Debug)]
pub struct AetherState {
    pub e: Double,
    pub n: Double,
    pub u: Double,
    pub ve: Double,
    pub vn: Double,
    pub vu: Double,
}

#[derive(Clone, Copy, Debug)]
pub struct AetherCpa {
    pub t_cpa: Double,
    pub horiz_m: Double,
    pub vert_m: Double,
    pub closing_ms: Double,
}

impl Default for AetherCpa {
    fn default() -> (r: AetherCpa)
        ensures
            r.t_cpa == (Double { bits: ZERO }),
            r.horiz_m == (Double { bits: ZERO }),
            r.vert_m == (Double { bits: ZERO }),
            r.closing_ms == (Double { bits: ZERO }),
    {
        let zero = Double { bits: ZERO };
        AetherCpa { t_cpa: zero, horiz_m: zero, vert_m: zero, closing_ms: zero }
    }
}

impl AetherState {
    pub open spec fn position(self) -> Enu {
        Enu { e: self.e, n: self.n, u: self.u }
    }

    pub open spec fn velocity(self) -> Enu {
        Enu { e: self.ve, n: self.vn, u: self.vu }
    }
}

/// The position of `a` as `b` sees it.
pub open spec fn offset(a: AetherState, b: AetherState) -> Enu {
    a.position().minus(b.position())
}

/// The velocity of `a` as `b` sees it.
pub open spec fn drift(a: AetherState, b: AetherState) -> Enu {
    a.velocity().minus(b.velocity())
}

/// Position and velocity differ by finite numbers.
pub open spec fn comparable(a: AetherState, b: AetherState) -> bool {
    let (dp, dv) = (offset(a, b), drift(a, b));
    dp.e.finite() && dp.n.finite() && dp.u.finite() && dv.e.finite() && dv.n.finite()
        && dv.u.finite()
}

/// Where and when two states come closest, from now to the horizon.
pub open spec fn closest(a: AetherState, b: AetherState, horizon_s: Double) -> AetherCpa {
    let (dp, dv) = (offset(a, b), drift(a, b));
    let t = approach::time_of_approach(dp, dv, horizon_s);
    let at_cpa = dp.plus(dv.scaled(t));
    AetherCpa {
        t_cpa: t,
        horiz_m: at_cpa.e.distance(at_cpa.n),
        vert_m: at_cpa.u.absolute(),
        closing_ms: dv.dot(dv).root(),
    }
}

/// A horizon that is finite and not in the past.
pub open spec fn usable(horizon_s: Double) -> bool {
    horizon_s.finite() && !horizon_s.below(Double { bits: ZERO })
}

/// The status that a call returns.
pub open spec fn status(
    a: Option<&AetherState>,
    b: Option<&AetherState>,
    horizon_s: Double,
    has_out: bool,
) -> i32 {
    match (a, b) {
        (Some(a), Some(b)) if has_out => if usable(horizon_s) && comparable(*a, *b) {
            AETHER_OK
        } else {
            AETHER_ERR_NAN
        },
        _ => AETHER_ERR_NULL,
    }
}

/// Closest point of approach between two constant-velocity states.
///
/// Returns `AETHER_OK` and fills `out` on success. `out` is untouched on any error.
pub fn aether_cpa(
    a: Option<&AetherState>,
    b: Option<&AetherState>,
    horizon_s: Double,
    out: Option<&mut AetherCpa>,
) -> (r: i32)
    ensures
        r == status(a, b, horizon_s, out is Some),
        match (a, b, out) {
            (Some(a), Some(b), Some(out)) => *final(out) == if r == AETHER_OK {
                closest(*a, *b, horizon_s)
            } else {
                *out
            },
            (_, _, Some(out)) => *final(out) == *out,
            _ => true,
        },
{
    match (a, b, out) {
        (Some(a), Some(b), Some(out)) => {
            if !horizon_s.is_finite() || horizon_s < (Double { bits: ZERO }) {
                return AETHER_ERR_NAN;
            }
            match cpa(a, b, horizon_s) {
                Some(result) => {
                    *out = result;
                    AETHER_OK
                },
                None => AETHER_ERR_NAN,
            }
        },
        _ => AETHER_ERR_NULL,
    }
}

/// The same closed form as `conjunction::pair_cpa`, on bare states.
pub fn cpa(a: &AetherState, b: &AetherState, horizon_s: Double) -> (r: Option<AetherCpa>)
    ensures
        r == if comparable(*a, *b) {
            Some(closest(*a, *b, horizon_s))
        } else {
            None
        },
{
    let dp = Enu { e: a.e, n: a.n, u: a.u } - Enu { e: b.e, n: b.n, u: b.u };
    let dv = Enu { e: a.ve, n: a.vn, u: a.vu } - Enu { e: b.ve, n: b.vn, u: b.vu };

    if !(dp.e.is_finite() && dp.n.is_finite() && dp.u.is_finite() && dv.e.is_finite()
        && dv.n.is_finite() && dv.u.is_finite()) {
        return None;
    }
    let t = approach_time(dp, dv, horizon_s);
    let at_cpa = dp + dv * t;
    Some(
        AetherCpa {
            t_cpa: t,
            horiz_m: at_cpa.horiz(),
            vert_m: at_cpa.u.abs(),
            closing_ms: dv.norm(),
        },
    )
}

/// The state that a view of a track comes down to.
pub open spec fn state_of(v: TrackView) -> AetherState {
    AetherState { e: v.pos.e, n: v.pos.n, u: v.pos.u, ve: v.vel.e, vn: v.vel.n, vu: v.vel.u }
}

/// This is the closed form that the screen uses: where the closest approach of a pair is
/// inside the minima, the screen reports just what a call on the same two states does.
/// Where it is not, the screen reports the first moment inside, if there is one, and the
/// same closing speed.
pub proof fn law_same_closed_form(
    a: Track,
    av: TrackView,
    b: Track,
    bv: TrackView,
    m: conjunction::Minima,
)
    ensures
        ({
            let r = closest(state_of(av), state_of(bv), m.horizon_s);
            let is_inside = r.horiz_m.below(m.min_horiz_m) && r.vert_m.below(m.min_vert_m);
            match conjunction::conjunction(a, av, b, bv, m) {
                Some(c) => {
                    &&& c.closing_ms == r.closing_ms
                    &&& is_inside ==> r == (AetherCpa {
                        t_cpa: c.t_cpa,
                        horiz_m: c.horiz_m,
                        vert_m: c.vert_m,
                        closing_ms: c.closing_ms,
                    })
                    &&& !is_inside ==> approach::earliest(
                        conjunction::relative(av, bv).0,
                        conjunction::relative(av, bv).1,
                        m,
                        c.t_cpa,
                    )
                },
                None => !is_inside,
            }
        }),
{
    let (dp, dv) = conjunction::relative(av, bv);
    if approach::ever_inside(dp, dv, m) {
        approach::law_there_is_an_earliest(dp, dv, m);
    }
}

/// It does not matter which state comes first: both ways round there is an answer or there
/// is none, and it is the same.
pub proof fn law_a_call_has_no_order(a: AetherState, b: AetherState, horizon_s: Double)
    ensures
        comparable(a, b) == comparable(b, a),
        ({
            let (r, s) = (closest(a, b, horizon_s), closest(b, a, horizon_s));
            &&& r.t_cpa.like(s.t_cpa)
            &&& r.horiz_m == s.horiz_m
            &&& r.vert_m == s.vert_m
            &&& r.closing_ms.like(s.closing_ms)
        }),
{
    let (dp, dv) = (offset(a, b), drift(a, b));
    let (dp2, dv2) = (offset(b, a), drift(b, a));
    approach::lemma_minus_opposed(a.position(), b.position());
    approach::lemma_minus_opposed(a.velocity(), b.velocity());
    facts::lemma_mirrors_magnitude(dp.e, dp2.e);
    facts::lemma_mirrors_magnitude(dp.n, dp2.n);
    facts::lemma_mirrors_magnitude(dp.u, dp2.u);
    facts::lemma_mirrors_magnitude(dv.e, dv2.e);
    facts::lemma_mirrors_magnitude(dv.n, dv2.n);
    facts::lemma_mirrors_magnitude(dv.u, dv2.u);
    approach::lemma_dot_opposed(dv, dv, dv2, dv2);
    facts::lemma_root_like(dv.dot(dv), dv2.dot(dv2));
    approach::lemma_time_has_no_order(dp, dv, dp2, dv2, horizon_s);
    let t = approach::time_of_approach(dp, dv, horizon_s);
    let t2 = approach::time_of_approach(dp2, dv2, horizon_s);
    approach::lemma_place_has_no_order(dp, dv, dp2, dv2, t, t2);
}

} // verus!
