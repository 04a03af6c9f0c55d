//! Elapsed time.
//!
//! An instant is a moment that the process witnessed, counted from a moment of its own
//! choosing. Only differences of instants mean anything.
use crate::double::facts;
use crate::double::rounding;
use crate::double::decimal::WHOLE;
use crate::double::{Double, ZERO};
use vstd::arithmetic::power::*;
use vstd::arithmetic::power2::*;
use vstd::prelude::*;

verus! {

pub const NANOS_PER_SEC: u32 = 1_000_000_000;

pub const NANOS_PER_MILLI: u32 = 1_000_000;

/// The number of nanoseconds in 2^64 seconds. Every span is shorter.
pub const SPAN_LIMIT: u128 = 18_446_744_073_709_551_616_000_000_000;

/// The number of nanoseconds in 2^52 seconds: as far as seconds are read in nanoseconds.
pub const AGE_LIMIT: i128 = 4_503_599_627_370_496_000_000_000;

/// A span of time to the nanosecond.
#[derive(Clone, Copy, Debug, PartialEq, Eq)]
pub struct Duration {
    nanos: u128,
}

impl View for Duration {
    type V = nat;

    /// The span in nanoseconds.
    closed spec fn view(&self) -> nat {
        self.nanos as nat
    }
}

/// `nanos` nanoseconds in seconds, rounded once.
pub open spec fn seconds(nanos: int) -> Double {
    if nanos < 0 {
        Double::quotient(true, (-nanos) as nat, NANOS_PER_SEC as nat)
    } else {
        Double::quotient(false, nanos as nat, NANOS_PER_SEC as nat)
    }
}

/// A number of seconds in whole nanoseconds: the nearest, with no number counting as none
/// and the very large ones as the limit.
pub open spec fn nanos(secs: Double) -> int {
    if secs.nan() {
        0
    } else {
        let n = if secs.in_places(9) < AGE_LIMIT {
            secs.in_places(9) as int
        } else {
            AGE_LIMIT as int
        };
        if secs.negative() {
            -n
        } else {
            n
        }
    }
}

/// An age that is `span` nanoseconds on, in seconds. Where the age is a whole number of
/// nanoseconds the sum is formed in nanoseconds and rounded once, so that an age and the
/// time that went by add up to the age reported later. Any other age is added as it is.
pub open spec fn aged(age: Double, span: int) -> Double {
    if seconds(nanos(age)) == age {
        seconds(span + nanos(age))
    } else {
        seconds(span).plus(age)
    }
}

/// An age that is `span` nanoseconds on, in seconds.
pub fn age_after(age: Double, span: i128) -> (r: Double)
    requires
        -SPAN_LIMIT < span < SPAN_LIMIT,
    ensures
        r == aged(age, span as int),
{
    let n: i128 = to_nanos(age);
    if to_seconds(n).to_bits() == age.to_bits() {
        to_seconds(span + n)
    } else {
        to_seconds(span) + age
    }
}

/// An age that no time is added to stays what it is; of the two zeros it is the positive
/// one.
pub proof fn lemma_aged_by_nothing(age: Double)
    requires
        age.finite(),
    ensures
        aged(age, 0).finite(),
        aged(age, 0).value() == age.value(),
        age.magnitude() > 0 || !age.negative() ==> aged(age, 0) == age,
{
    lemma_no_seconds();
    facts::lemma_units_order(0, 0);
    facts::lemma_plus_zero(age, seconds(0));
    facts::lemma_plus_commutes(age, seconds(0));
    let sum = seconds(0).plus(age);
    if age.magnitude() > 0 {
        facts::lemma_units_order(age.magnitude(), 0);
        assert(sum.negative() == age.negative());
    } else if !age.negative() {
        assert(Double::pack(false, 0) == age);
    }
}

/// An age grows with the time that goes by, and never falls below nought.
pub proof fn lemma_aged_order(age: Double, a: int, b: int)
    requires
        age.finite(),
        a <= b,
    ensures
        !aged(age, a).nan(),
        !aged(age, b).nan(),
        aged(age, a).value() <= aged(age, b).value(),
        a >= 0 && age.value() >= 0 ==> aged(age, a).value() >= 0,
{
    lemma_seconds_order(a, b);
    if a >= 0 {
        lemma_seconds_order(0, a);
    }
    if seconds(nanos(age)) == age {
        lemma_seconds_order(a + nanos(age), b + nanos(age));
        if age.value() >= 0 {
            lemma_nanos_sign(age);
        }
    } else {
        facts::lemma_plus_order(age, seconds(a), seconds(b));
        facts::lemma_plus_commutes(age, seconds(a));
        facts::lemma_plus_commutes(age, seconds(b));
        if a >= 0 && age.value() >= 0 {
            facts::lemma_plus_grows(seconds(a), age);
        }
    }
}

/// A number of nanoseconds in seconds, rounded once.
pub fn to_seconds(nanos: i128) -> (r: Double)
    requires
        -0x4000_0000_0000_0000_0000_0000_0000_0000 < nanos
            < 0x4000_0000_0000_0000_0000_0000_0000_0000,
    ensures
        r == seconds(nanos as int),
{
    if nanos < 0 {
        Double::ratio(true, (-nanos) as u128, NANOS_PER_SEC)
    } else {
        Double::ratio(false, nanos as u128, NANOS_PER_SEC)
    }
}

/// A number of seconds in whole nanoseconds.
pub fn to_nanos(secs: Double) -> (r: i128)
    ensures
        r == nanos(secs),
        -AGE_LIMIT <= r <= AGE_LIMIT,
{
    if secs.is_nan() {
        return 0;
    }
    let size: Double = secs.abs();
    let n: i128 = if size < (Double { bits: WHOLE }) {
        proof {
            facts::lemma_units_order(WHOLE as nat, size.magnitude());
        }
        let n: u128 = size.scaled(9);
        if n < AGE_LIMIT as u128 {
            n as i128
        } else {
            AGE_LIMIT
        }
    } else {
        proof {
            facts::lemma_units_order(WHOLE as nat, size.magnitude());
            lemma_beyond(size);
        }
        AGE_LIMIT
    };
    assert(size.magnitude() == secs.magnitude());
    assert(size.in_places(9) == secs.in_places(9));
    if secs < (Double { bits: ZERO }) {
        proof {
            facts::lemma_units_order(secs.magnitude(), 0);
        }
        -n
    } else {
        proof {
            facts::lemma_units_order(secs.magnitude(), 0);
            if secs.negative() {
                lemma_no_nanos();
            }
        }
        n
    }
}

/// Zero seconds are no nanoseconds.
proof fn lemma_no_nanos()
    ensures
        forall|x: Double| x.magnitude() == 0 ==> #[trigger] x.in_places(9) == 0,
{
    assert forall|x: Double| x.magnitude() == 0 implies #[trigger] x.in_places(9) == 0 by {
        facts::lemma_units_order(0, 0);
        lemma_pow2_pos(1074);
        let p = pow(10, 9) as nat;
        assert(0 * p == 0) by (nonlinear_arith);
        vstd::arithmetic::div_mod::lemma_small_mod(0, pow2(1074));
        vstd::arithmetic::div_mod::lemma_basic_div(0, pow2(1074) as int);
    }
}

/// From 2^52 seconds on, the limit is reached.
proof fn lemma_beyond(x: Double)
    requires
        x.magnitude() >= WHOLE,
    ensures
        x.in_places(9) >= AGE_LIMIT,
{
    facts::lemma_units_order(WHOLE as nat, x.magnitude());
    assert(WHOLE as nat / (rounding::HIDDEN as nat) == 1075);
    assert(WHOLE as nat % (rounding::HIDDEN as nat) == 0);
    lemma2_to64_rest();
    let (u, one) = (rounding::units(x.magnitude()), pow2(1074));
    lemma_pow2_pos(1074);
    let p = pow(10, 9);
    assert(p == 1_000_000_000) by {
        reveal(pow);
        reveal_with_fuel(pow, 10);
    }
    let h = rounding::HIDDEN as int;
    assert(u * p >= (h * p) * one) by (nonlinear_arith)
        requires
            u >= h * one,
            p > 0,
    ;
    vstd::arithmetic::div_mod::lemma_div_by_multiple(h * p, one as int);
    vstd::arithmetic::div_mod::lemma_div_is_ordered((h * p) * one, u * p, one as int);
}

/// A number of seconds that is not negative is a number of nanoseconds that is not.
pub proof fn lemma_nanos_sign(x: Double)
    requires
        !x.nan(),
        x.value() >= 0,
    ensures
        nanos(x) >= 0,
{
    facts::lemma_units_order(x.magnitude(), 0);
    lemma_no_nanos();
}

/// Up to here, doubles of seconds tell nanoseconds apart: 2^50, thirteen days.
pub const EXACT_LIMIT: u64 = 0x4_0000_0000_0000;

/// Whole nanoseconds survive being rounded to seconds and back.
pub proof fn lemma_nanos_read_back(a: nat)
    requires
        a <= EXACT_LIMIT,
    ensures
        nanos(seconds(a as int)) == a,
{
    let (d, one) = (NANOS_PER_SEC as nat, pow2(1074));
    let x = seconds(a as int);
    let m = x.magnitude();
    facts::lemma_rounded_to_nearest(false, a * one, d);
    lemma_pow2_pos(1074);
    // The value is at most 2^21 seconds, so its neighbours are at most 2^1042 units away.
    let top: nat = 0x4140_0000_0000_0000;
    assert(top / (rounding::HIDDEN as nat) == 1044 && top % (rounding::HIDDEN as nat) == 0);
    lemma2_to64_rest();
    lemma2_to64();
    lemma_pow2_adds(52, 1043);
    lemma_pow2_adds(21, 1074);
    facts::lemma_nearest_exact(top, 1);
    let u = rounding::units(top);
    assert(u * 1 == u && u == pow2(21) * one);
    assert((a * one) * 1 <= u * d) by (nonlinear_arith)
        requires
            u == pow2(21) * one,
            pow2(21) == 0x20_0000,
            a <= 0x4_0000_0000_0000,
            d == 1_000_000_000,
    ;
    facts::lemma_nearest_order(a * one, d, m, u, 1, top);
    lemma_neighbours(m);
    let near = pow2(1043) as int;
    lemma_pow2_adds(31, 1043);
    let v = rounding::units(m);
    if m > 0 {
        lemma_neighbours((m - 1) as nat);
        assert(2 * (v * d) <= 2 * (a * one) + d * near) by (nonlinear_arith)
            requires
                d * rounding::halfway((m - 1) as nat) <= 2 * (a * one),
                2 * v - near <= rounding::halfway((m - 1) as nat),
        ;
    }
    assert(2 * (a * one) <= 2 * (v * d) + d * near) by (nonlinear_arith)
        requires
            2 * (a * one) <= d * rounding::halfway(m),
            rounding::halfway(m) <= 2 * v + near,
    ;
    assert(d * near < one) by (nonlinear_arith)
        requires
            d == 1_000_000_000,
            one == pow2(31) * near,
            pow2(31) == 0x8000_0000,
            near > 0,
    ;
    let p = pow(10, 9) as nat;
    assert(p == d) by {
        reveal(pow);
        reveal_with_fuel(pow, 10);
    }
    let n = v * d;
    if n >= a * one {
        vstd::arithmetic::div_mod::lemma_fundamental_div_mod_converse(
            n as int,
            one as int,
            a as int,
            n - a * one,
        );
    } else {
        assert((a - 1) * one == a * one - one) by (nonlinear_arith);
        assert(a >= 1) by (nonlinear_arith)
            requires
                n < a * one,
                n >= 0,
        ;
        vstd::arithmetic::div_mod::lemma_fundamental_div_mod_converse(
            n as int,
            one as int,
            a - 1,
            n - (a - 1) * one,
        );
    }
    assert(x.in_places(9) == a);
}

/// Neighbours below 2^22 seconds are at most 2^1043 units apart.
proof fn lemma_neighbours(m: nat)
    requires
        m <= 0x4140_0000_0000_0000,
    ensures
        rounding::units(m) < rounding::units(m + 1) <= rounding::units(m) + pow2(1043),
{
    let h = rounding::HIDDEN as nat;
    let t: nat = if m < h { 0 } else { (m / h - 1) as nat };
    let q: nat = if m < h { m } else { h + m % h };
    rounding::lemma_units_at(t, q);
    assert(t * h + q == m);
    let c = pow2(t);
    assert((q + 1) * c == q * c + c) by (nonlinear_arith);
    lemma_pow2_pos(t);
    if t < 1043 {
        lemma_pow2_strictly_increases(t, 1043);
    }
}

/// Seconds are in the order of the nanoseconds.
pub proof fn lemma_seconds_order(a: int, b: int)
    requires
        a <= b,
    ensures
        !seconds(a).nan(),
        !seconds(b).nan(),
        seconds(a).value() <= seconds(b).value(),
        a >= 0 ==> seconds(a).value() >= 0,
{
    let d = NANOS_PER_SEC as nat;
    let (x, y) = (if a < 0 { (-a) as nat } else { a as nat }, if b < 0 { (-b) as nat } else { b as nat });
    let one = pow2(1074);
    facts::lemma_rounded_to_nearest(a < 0, x * one, d);
    facts::lemma_rounded_to_nearest(b < 0, y * one, d);
    let (m, n) = (seconds(a).magnitude(), seconds(b).magnitude());
    if a >= 0 {
        assert((x * one) * d <= (y * one) * d) by (nonlinear_arith)
            requires
                x <= y,
        ;
        facts::lemma_nearest_order(x * one, d, m, y * one, d, n);
    }
    if b < 0 {
        assert((y * one) * d <= (x * one) * d) by (nonlinear_arith)
            requires
                y <= x,
        ;
        facts::lemma_nearest_order(y * one, d, n, x * one, d, m);
    }
    facts::lemma_units_order(m, n);
    facts::lemma_units_order(n, m);
}

/// No time is zero seconds.
pub proof fn lemma_no_seconds()
    ensures
        seconds(0).magnitude() == 0,
        !seconds(0).negative(),
{
    assert(0 * pow2(1074) == 0) by (nonlinear_arith);
    facts::lemma_zero_rounds_to_zero(false, NANOS_PER_SEC as nat);
    facts::lemma_rounded_to_nearest(false, 0, NANOS_PER_SEC as nat);
}

impl Duration {
    #[verifier::type_invariant]
    spec fn within_limit(self) -> bool {
        self.nanos < SPAN_LIMIT
    }

    pub fn zero() -> (r: Duration)
        ensures
            r@ == 0,
    {
        Duration { nanos: 0 }
    }

    pub fn from_secs(secs: u64) -> (r: Duration)
        ensures
            r@ == secs as nat * NANOS_PER_SEC as nat,
    {
        Duration { nanos: secs as u128 * 1_000_000_000 }
    }

    pub fn from_millis(millis: u64) -> (r: Duration)
        ensures
            r@ == millis as nat * NANOS_PER_MILLI as nat,
    {
        Duration { nanos: millis as u128 * 1_000_000 }
    }

    /// `secs` seconds and `nanos` nanoseconds.
    pub fn new(secs: u64, nanos: u32) -> (r: Duration)
        requires
            nanos < NANOS_PER_SEC,
        ensures
            r@ == secs as nat * NANOS_PER_SEC as nat + nanos as nat,
    {
        Duration { nanos: secs as u128 * 1_000_000_000 + nanos as u128 }
    }

    /// The whole seconds of the span.
    pub fn as_secs(&self) -> (r: u64)
        ensures
            r == self@ / (NANOS_PER_SEC as nat),
    {
        proof {
            use_type_invariant(self);
        }
        (self.nanos / NANOS_PER_SEC as u128) as u64
    }

    /// The span in seconds.
    pub fn as_seconds(&self) -> (r: Double)
        ensures
            r == seconds(self@ as int),
    {
        proof {
            use_type_invariant(self);
        }
        to_seconds(self.nanos as i128)
    }

    pub fn max(self, other: Duration) -> (r: Duration)
        ensures
            r@ == (if self@ < other@ {
                other@
            } else {
                self@
            }),
    {
        if self.nanos < other.nanos {
            other
        } else {
            self
        }
    }

    /// The two spans one after the other.
    pub fn plus(self, other: Duration) -> (r: Duration)
        requires
            self@ + other@ < SPAN_LIMIT,
        ensures
            r@ == self@ + other@,
    {
        Duration { nanos: self.nanos + other.nanos }
    }

    /// One of `n` equal parts of the span, to the whole nanosecond.
    pub fn split(self, n: u64) -> (r: Duration)
        requires
            n > 0,
        ensures
            r@ == self@ / (n as nat),
    {
        proof {
            use_type_invariant(self);
            assert(self.nanos / n as u128 <= self.nanos) by (nonlinear_arith)
                requires
                    n > 0,
            ;
        }
        Duration { nanos: self.nanos / n as u128 }
    }
}

/// A moment, counted from the start of the clock.
#[derive(Clone, Copy, Debug, PartialEq, Eq)]
pub struct Instant {
    since: Duration,
}

impl View for Instant {
    type V = nat;

    /// The nanoseconds since the start of the clock.
    closed spec fn view(&self) -> nat {
        self.since@
    }
}

/// The time from the moment `earlier` to the moment `later`, in nanoseconds; none where
/// they come the other way round.
pub open spec fn elapsed(earlier: nat, later: nat) -> nat {
    if earlier <= later {
        (later - earlier) as nat
    } else {
        0
    }
}

impl Instant {
    /// The moment this long after the start of the clock.
    pub fn at(since: Duration) -> (r: Instant)
        ensures
            r@ == since@,
    {
        Instant { since }
    }

    /// The moment this much later.
    pub fn after(self, span: Duration) -> (r: Instant)
        requires
            self@ + span@ < SPAN_LIMIT,
        ensures
            r@ == self@ + span@,
    {
        Instant { since: self.since.plus(span) }
    }

    /// The nanoseconds from `earlier` to this moment; negative where `earlier` is the later
    /// one.
    pub fn nanos_since(&self, earlier: Instant) -> (r: i128)
        ensures
            r == self@ - earlier@,
            -SPAN_LIMIT < r < SPAN_LIMIT,
    {
        proof {
            use_type_invariant(&self.since);
            use_type_invariant(&earlier.since);
        }
        self.since.nanos as i128 - earlier.since.nanos as i128
    }

    /// The time since `earlier`; none where `earlier` is the later one.
    pub fn saturating_duration_since(&self, earlier: Instant) -> (r: Duration)
        ensures
            r@ == elapsed(earlier@, self@),
    {
        proof {
            use_type_invariant(&self.since);
        }
        if earlier.since.nanos <= self.since.nanos {
            Duration { nanos: self.since.nanos - earlier.since.nanos }
        } else {
            Duration::zero()
        }
    }
}

} // verus!
