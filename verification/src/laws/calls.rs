//! Closest approach as a C caller asks for it.
use crate::double::facts;
use crate::double::Double;
use crate::ffi;
use crate::ffi::AetherState;
use crate::laws::motion;
use crate::laws::screening;
use vstd::prelude::*;

verus! {

/// How far apart two coordinates are, and how fast they part, is a number on each axis.
pub open spec fn are_numbers(a: AetherState, b: AetherState) -> bool {
    &&& a.e.minus(b.e).finite() && a.n.minus(b.n).finite() && a.u.minus(b.u).finite()
    &&& a.ve.minus(b.ve).finite() && a.vn.minus(b.vn).finite() && a.vu.minus(b.vu).finite()
}

/// A call gives -1 if something is missing; 0 if nothing is, the horizon is a number and not
/// negative, and the states differ by numbers; and -2 otherwise.
pub proof fn law_status(
    a: Option<&AetherState>,
    b: Option<&AetherState>,
    horizon_s: Double,
    has_out: bool,
)
    ensures
        ({
            let r = ffi::status(a, b, horizon_s, has_out);
            match (a, b) {
                (Some(a), Some(b)) if has_out => {
                    let good = horizon_s.finite() && horizon_s.value() >= 0 && are_numbers(*a, *b);
                    r == if good {
                        0int
                    } else {
                        -2
                    }
                },
                _ => r == -1,
            }
        }),
{
    facts::lemma_units_order(0, 0);
}

/// The answer is of the nearest moment to the closest approach from now to the horizon. It
/// says how far apart the states are then, across and above, and at what speed they part.
pub proof fn law_answer(a: AetherState, b: AetherState, horizon_s: Double)
    ensures
        ({
            let r = ffi::closest(a, b, horizon_s);
            let (dp, dv) = (ffi::offset(a, b), ffi::drift(a, b));
            let t = r.t_cpa;
            &&& dp.e == a.e.minus(b.e) && dp.n == a.n.minus(b.n) && dp.u == a.u.minus(b.u)
            &&& dv.e == a.ve.minus(b.ve) && dv.n == a.vn.minus(b.vn) && dv.u == a.vu.minus(b.vu)
            &&& motion::computable(dp, dv, horizon_s) ==> motion::is_nearest(
                dp,
                dv,
                horizon_s,
                t.value(),
            )
            &&& dv.dot(dv).below(Double { bits: 0x3e11_2e0b_e826_d695 }) ==> t.value() == 0
            &&& r.horiz_m == screening::apart(a.e, b.e, a.ve, b.ve, t).distance(
                screening::apart(a.n, b.n, a.vn, b.vn, t),
            )
            &&& r.vert_m == screening::apart(a.u, b.u, a.vu, b.vu, t).absolute()
            &&& r.closing_ms == screening::speed(dv.e, dv.n, dv.u)
        }),
{
    let (dp, dv) = (ffi::offset(a, b), ffi::drift(a, b));
    motion::law_a_pair_that_keeps_its_distance_is_taken_now(dp, dv, horizon_s);
    if motion::computable(dp, dv, horizon_s) {
        motion::law_time_of_approach_is_the_nearest_moment(dp, dv, horizon_s);
    }
}

} // verus!
