//! What rounding leaves true of the numbers: order, signs and zeros.
use vstd::arithmetic::power2::*;
use vstd::prelude::*;

use super::rounding;
use super::rounding::INFINITE;
use super::{Double, ONE};

verus! {

/// Some magnitude at most `k` is nearest, if `k` is not too small.
proof fn lemma_nearest_up_to(n: nat, d: nat, k: nat) -> (m: nat)
    requires
        k <= INFINITE,
        k < INFINITE ==> 2 * n <= d * rounding::halfway(k),
        k < INFINITE && k % 2 == 1 ==> 2 * n < d * rounding::halfway(k),
    ensures
        rounding::nearest(n, d, m),
    decreases k,
{
    let low = d * rounding::halfway((k - 1) as nat);
    if k == 0 || low < 2 * n || (low == 2 * n && k % 2 == 0) {
        k
    } else {
        lemma_nearest_up_to(n, d, (k - 1) as nat)
    }
}

/// Rounding always finds a magnitude, and keeps the sign.
pub proof fn lemma_rounded_to_nearest(negative: bool, n: nat, d: nat)
    ensures
        ({
            let r = Double::rounded(negative, n, d);
            &&& rounding::nearest(n, d, r.magnitude())
            &&& r.negative() == negative
            &&& !r.nan()
        }),
{
    let m = lemma_nearest_up_to(n, d, INFINITE as nat);
    let c = choose|m: nat| rounding::nearest(n, d, m);
    assert(rounding::nearest(n, d, c));
}

/// Rounding keeps the order of the exact values.
pub proof fn lemma_nearest_order(n: nat, d: nat, m: nat, n2: nat, d2: nat, m2: nat)
    requires
        d > 0,
        d2 > 0,
        rounding::nearest(n, d, m),
        rounding::nearest(n2, d2, m2),
        n * d2 <= n2 * d,
    ensures
        m <= m2,
{
    if m > m2 {
        let (h, h2) = (rounding::halfway((m - 1) as nat), rounding::halfway(m2));
        if m2 < m - 1 {
            rounding::lemma_halfway_increase(m2, (m - 1) as nat);
        }
        assert(d * h <= 2 * n && 2 * n2 <= d2 * h2 && h2 <= h);
        assert(d * h == 2 * n && 2 * n2 == d2 * h2 && h2 == h) by (nonlinear_arith)
            requires
                d * h <= 2 * n,
                2 * n2 <= d2 * h2,
                h2 <= h,
                n * d2 <= n2 * d,
                d > 0,
                d2 > 0,
                h2 >= 0,
        ;
        assert(m2 == m - 1);
    }
}

/// A magnitude is the nearest to its own value.
pub proof fn lemma_nearest_exact(m: nat, d: nat)
    requires
        m <= INFINITE,
        d > 0,
    ensures
        rounding::nearest(rounding::units(m) * d, d, m),
{
    let u = rounding::units(m);
    rounding::lemma_units_increase(m, m + 1);
    let next = rounding::halfway(m);
    assert(2 * (u * d) < d * next) by (nonlinear_arith)
        requires
            2 * u < next,
            d > 0,
    ;
    if m > 0 {
        rounding::lemma_units_increase((m - 1) as nat, m);
        let before = rounding::halfway((m - 1) as nat);
        assert(d * before < 2 * (u * d)) by (nonlinear_arith)
            requires
                before < 2 * u,
                d > 0,
        ;
    }
}

/// The order of magnitudes is that of the values.
pub proof fn lemma_units_order(a: nat, b: nat)
    ensures
        a <= b <==> rounding::units(a) <= rounding::units(b),
        rounding::units(0) == 0,
        a > 0 ==> rounding::units(a) > 0,
{
    if a < b {
        rounding::lemma_units_increase(a, b);
    }
    if b < a {
        rounding::lemma_units_increase(b, a);
    }
    if a > 0 {
        rounding::lemma_units_increase(0, a);
    }
}

/// A whole number of units that is at least some magnitude rounds to no less.
proof fn lemma_rounds_up_from(negative: bool, n: nat, m: nat)
    requires
        m <= INFINITE,
        rounding::units(m) <= n,
    ensures
        Double::rounded(negative, n, 1).magnitude() >= m,
{
    lemma_rounded_to_nearest(negative, n, 1);
    lemma_nearest_exact(m, 1);
    assert(rounding::units(m) * 1 == rounding::units(m));
    lemma_nearest_order(
        rounding::units(m),
        1,
        m,
        n,
        1,
        Double::rounded(negative, n, 1).magnitude(),
    );
}

/// Numbers that are not negative add up to no less than either.
pub proof fn lemma_plus_grows(a: Double, b: Double)
    requires
        !a.nan(),
        !b.nan(),
        a.value() >= 0,
        b.value() >= 0,
    ensures
        !a.plus(b).nan(),
        a.plus(b).value() >= a.value(),
        a.plus(b).value() >= b.value(),
{
    lemma_units_order(a.magnitude(), INFINITE as nat);
    lemma_units_order(b.magnitude(), INFINITE as nat);
    let r = a.plus(b);
    if a.infinite() || b.infinite() {
    } else {
        let sum = a.value() + b.value();
        if sum > 0 {
            lemma_rounded_to_nearest(false, sum as nat, 1);
            lemma_rounds_up_from(false, sum as nat, a.magnitude());
            lemma_rounds_up_from(false, sum as nat, b.magnitude());
            lemma_units_order(a.magnitude(), r.magnitude());
            lemma_units_order(b.magnitude(), r.magnitude());
        } else {
            assert(Double::pack(a.negative() && b.negative(), 0).magnitude() == 0);
        }
    }
}

/// A difference has the sign of the comparison.
pub proof fn lemma_minus_sign(a: Double, b: Double)
    requires
        a.finite(),
        b.finite(),
    ensures
        !a.minus(b).nan(),
        a.value() <= b.value() ==> a.minus(b).value() <= 0,
        a.value() < b.value() ==> a.minus(b).value() < 0,
        a.value() >= b.value() ==> a.minus(b).value() >= 0,
        a.value() > b.value() ==> a.minus(b).value() > 0,
        a.value() == b.value() ==> a.minus(b).magnitude() == 0,
{
    let c = b.negated();
    lemma_units_order(0, b.magnitude());
    assert(c.magnitude() == b.magnitude() && c.value() == -b.value());
    let sum = a.value() + c.value();
    if sum == 0 {
        assert(Double::pack(a.negative() && c.negative(), 0).magnitude() == 0);
    } else {
        let n = if sum < 0 { (-sum) as nat } else { sum as nat };
        lemma_rounded_to_nearest(sum < 0, n, 1);
        lemma_units_order(1, n);
        assert(rounding::units(1) == 1);
        lemma_rounds_up_from(sum < 0, n, 1);
        lemma_units_order(1, a.minus(b).magnitude());
    }
}

/// Taking away part of a number leaves no more than it.
pub proof fn lemma_minus_within(a: Double, b: Double)
    requires
        a.finite(),
        b.finite(),
        0 <= b.value() <= a.value(),
    ensures
        a.minus(b).finite(),
        0 <= a.minus(b).value() <= a.value(),
{
    lemma_minus_sign(a, b);
    let c = b.negated();
    let r = a.minus(b);
    lemma_units_order(0, b.magnitude());
    lemma_units_order(a.magnitude(), 0);
    assert(c.magnitude() == b.magnitude() && c.value() == -b.value());
    let sum = a.value() + c.value();
    if sum > 0 {
        lemma_rounded_to_nearest(false, sum as nat, 1);
        lemma_nearest_exact(a.magnitude(), 1);
        let n = rounding::units(a.magnitude());
        assert(n * 1 == n);
        lemma_nearest_order(sum as nat, 1, r.magnitude(), n, 1, a.magnitude());
        lemma_units_order(r.magnitude(), a.magnitude());
    } else {
        assert(Double::pack(a.negative() && c.negative(), 0).magnitude() == 0);
    }
}

/// Adding a zero changes nothing.
pub proof fn lemma_plus_zero(a: Double, b: Double)
    requires
        a.finite(),
        b.magnitude() == 0,
    ensures
        a.plus(b).finite(),
        a.plus(b).value() == a.value(),
        a.plus(b).magnitude() == a.magnitude(),
{
    lemma_units_order(a.magnitude(), 0);
    if a.magnitude() > 0 {
        let n = rounding::units(a.magnitude());
        lemma_rounded_to_nearest(a.negative(), n, 1);
        lemma_nearest_exact(a.magnitude(), 1);
        assert(n * 1 == n);
        rounding::lemma_nearest_unique(n, 1, a.magnitude(), a.plus(b).magnitude());
    } else {
        assert(Double::pack(a.negative() && b.negative(), 0).magnitude() == 0);
    }
}

/// Zero rounds to zero.
pub proof fn lemma_zero_rounds_to_zero(negative: bool, d: nat)
    requires
        d > 0,
    ensures
        Double::rounded(negative, 0, d).magnitude() == 0,
{
    lemma_rounded_to_nearest(negative, 0, d);
    lemma_units_order(0, 0);
    lemma_nearest_exact(0, d);
    assert(0 * d == 0) by (nonlinear_arith);
    rounding::lemma_nearest_unique(0, d, 0, Double::rounded(negative, 0, d).magnitude());
}

/// A finite number times zero is zero.
pub proof fn lemma_times_zero(a: Double, b: Double)
    requires
        a.finite(),
        b.magnitude() == 0,
    ensures
        a.times(b).magnitude() == 0,
        b.times(a).magnitude() == 0,
{
    lemma_pow2_pos(1074);
    lemma_units_order(0, 0);
    let u = rounding::units(a.magnitude());
    assert(u * 0 == 0 && 0 * u == 0) by (nonlinear_arith);
    lemma_nearest_exact(0, pow2(1074));
    assert(0 * pow2(1074) == 0) by (nonlinear_arith);
    let neg = a.negative() != b.negative();
    lemma_rounded_to_nearest(neg, 0, pow2(1074));
    rounding::lemma_nearest_unique(
        0,
        pow2(1074),
        0,
        Double::rounded(neg, 0, pow2(1074)).magnitude(),
    );
}

/// Numbers that are not negative have a product that is not; it is a number where no zero
/// meets an infinity.
pub proof fn lemma_times_sign(a: Double, b: Double)
    requires
        !a.nan(),
        !b.nan(),
        a.value() >= 0,
        b.value() >= 0,
        a.infinite() ==> b.magnitude() > 0,
        b.infinite() ==> a.magnitude() > 0,
    ensures
        !a.times(b).nan(),
        a.times(b).value() >= 0,
{
    lemma_units_order(a.magnitude(), 0);
    lemma_units_order(b.magnitude(), 0);
    if a.infinite() || b.infinite() {
    } else if a.magnitude() == 0 {
        lemma_times_zero(b, a);
        lemma_units_order(0, 0);
    } else if b.magnitude() == 0 {
        lemma_times_zero(a, b);
        lemma_units_order(0, 0);
    } else {
        lemma_rounded_to_nearest(
            false,
            rounding::units(a.magnitude()) * rounding::units(b.magnitude()),
            pow2(1074),
        );
    }
}

/// A number that is not negative, over a positive one, is not negative.
pub proof fn lemma_over_sign(a: Double, b: Double)
    requires
        !a.nan(),
        a.value() >= 0,
        b.finite(),
        b.value() > 0,
    ensures
        !a.over(b).nan(),
        a.over(b).value() >= 0,
{
    lemma_units_order(a.magnitude(), 0);
    lemma_units_order(b.magnitude(), 0);
    if !a.infinite() {
        let (n, d) = (
            rounding::units(a.magnitude()) * pow2(1074),
            rounding::units(b.magnitude()),
        );
        lemma_rounded_to_nearest(a.negative(), n, d);
        if a.magnitude() == 0 {
            assert(0 * pow2(1074) == 0) by (nonlinear_arith);
            assert(0 * d == 0) by (nonlinear_arith);
            lemma_nearest_exact(0, d);
            rounding::lemma_nearest_unique(0, d, 0, a.over(b).magnitude());
        }
    }
}

/// A number that is not positive, over a positive one, is not positive.
pub proof fn lemma_over_negative_sign(a: Double, b: Double)
    requires
        !a.nan(),
        a.value() <= 0,
        b.finite(),
        b.value() > 0,
    ensures
        !a.over(b).nan(),
        a.over(b).value() <= 0,
        a.over(b).value() == 0 ==> a.over(b).magnitude() == 0,
{
    lemma_units_order(a.magnitude(), 0);
    lemma_units_order(b.magnitude(), 0);
    let r = a.over(b);
    if !a.infinite() {
        let (n, d) = (
            rounding::units(a.magnitude()) * pow2(1074),
            rounding::units(b.magnitude()),
        );
        lemma_rounded_to_nearest(a.negative(), n, d);
        if a.magnitude() == 0 {
            assert(0 * pow2(1074) == 0) by (nonlinear_arith);
            lemma_zero_rounds_to_zero(a.negative(), d);
        }
    }
    lemma_units_order(r.magnitude(), 0);
}

/// The value of one, in units.
pub proof fn lemma_one()
    ensures
        (Double { bits: ONE }).value() == pow2(1074),
        (Double { bits: ONE }).finite(),
{
    assert(ONE as nat / (rounding::HIDDEN as nat) == 1023);
    assert(ONE as nat % (rounding::HIDDEN as nat) == 0);
    lemma2_to64_rest();
    lemma_pow2_adds(52, 1022);
    assert(pow2(52) == rounding::HIDDEN);
}

/// The smaller over the larger is at most one.
pub proof fn lemma_over_at_most_one(a: Double, b: Double)
    requires
        a.finite(),
        !b.nan(),
        0 <= a.value() <= b.value(),
        b.value() > 0,
    ensures
        a.over(b).finite(),
        0 <= a.over(b).value() <= pow2(1074),
{
    lemma_units_order(a.magnitude(), 0);
    lemma_units_order(b.magnitude(), 0);
    lemma_one();
    if b.infinite() {
        lemma_units_order(0, 0);
        lemma_pow2_pos(1074);
        assert(Double::pack(a.negative() != b.negative(), 0).magnitude() == 0);
    } else {
        lemma_over_sign(a, b);
        let (x, y, one) = (
            rounding::units(a.magnitude()),
            rounding::units(b.magnitude()),
            pow2(1074),
        );
        let r = a.over(b);
        lemma_rounded_to_nearest(a.negative() != b.negative(), x * one, y);
        lemma_nearest_exact(ONE as nat, 1);
        assert((x * one) * 1 <= (one * 1) * y) by (nonlinear_arith)
            requires
                x <= y,
        ;
        lemma_nearest_order(x * one, y, r.magnitude(), one * 1, 1, ONE as nat);
        lemma_units_order(r.magnitude(), ONE as nat);
    }
}

/// A product with a fraction of one is no farther from zero.
pub proof fn lemma_fraction_shrinks_magnitude(k: Double, a: Double)
    requires
        k.magnitude() <= ONE,
        a.finite(),
    ensures
        k.times(a).magnitude() <= a.magnitude(),
        a.times(k).magnitude() <= a.magnitude(),
{
    lemma_one();
    lemma_pow2_pos(1074);
    lemma_units_order(k.magnitude(), ONE as nat);
    let (x, y, one) = (
        rounding::units(k.magnitude()),
        rounding::units(a.magnitude()),
        pow2(1074),
    );
    let neg = k.negative() != a.negative();
    lemma_rounded_to_nearest(neg, x * y, one);
    lemma_nearest_exact(a.magnitude(), 1);
    assert(x * y == y * x) by (nonlinear_arith);
    assert((x * y) * 1 <= (y * 1) * one) by (nonlinear_arith)
        requires
            x <= one,
    ;
    lemma_nearest_order(
        x * y,
        one,
        Double::rounded(neg, x * y, one).magnitude(),
        y * 1,
        1,
        a.magnitude(),
    );
}

/// A number times a fraction of one is no larger.
pub proof fn lemma_fraction_shrinks(k: Double, a: Double)
    requires
        !k.nan(),
        0 <= k.value() <= pow2(1074),
        a.finite(),
        a.value() >= 0,
    ensures
        k.times(a).finite(),
        0 <= k.times(a).value() <= a.value(),
{
    lemma_one();
    lemma_pow2_pos(1074);
    lemma_units_order(k.magnitude(), ONE as nat);
    lemma_units_order(k.magnitude(), 0);
    lemma_units_order(a.magnitude(), 0);
    lemma_times_sign(k, a);
    lemma_fraction_shrinks_magnitude(k, a);
    lemma_units_order(k.times(a).magnitude(), a.magnitude());
}

proof fn lemma_nearest_root_up_to(n: nat, k: nat) -> (m: nat)
    requires
        k <= INFINITE,
        k < INFINITE ==> 4 * n <= rounding::halfway(k) * rounding::halfway(k),
        k < INFINITE && k % 2 == 1 ==> 4 * n < rounding::halfway(k) * rounding::halfway(k),
    ensures
        rounding::nearest_root(n, m),
    decreases k,
{
    let h = rounding::halfway((k - 1) as nat);
    if k == 0 || h * h < 4 * n || (h * h == 4 * n && k % 2 == 0) {
        k
    } else {
        lemma_nearest_root_up_to(n, (k - 1) as nat)
    }
}

/// Rounding a root always finds a magnitude.
pub proof fn lemma_root_to_nearest(n: nat)
    ensures
        rounding::nearest_root(n, Double::rounded_root(n).magnitude()),
        !Double::rounded_root(n).negative(),
        !Double::rounded_root(n).nan(),
{
    let m = lemma_nearest_root_up_to(n, INFINITE as nat);
    let c = choose|m: nat| rounding::nearest_root(n, m);
    assert(rounding::nearest_root(n, c));
}

/// Rounded roots are in the order of what they are the roots of.
pub proof fn lemma_rounded_root_order(n: nat, n2: nat)
    requires
        n <= n2,
    ensures
        Double::rounded_root(n).magnitude() <= Double::rounded_root(n2).magnitude(),
{
    lemma_root_to_nearest(n);
    lemma_root_to_nearest(n2);
    let (m, m2) = (Double::rounded_root(n).magnitude(), Double::rounded_root(n2).magnitude());
    if m > m2 {
        let (h, h2) = (rounding::halfway((m - 1) as nat), rounding::halfway(m2));
        if m2 < m - 1 {
            rounding::lemma_halfway_increase(m2, (m - 1) as nat);
            assert(h2 * h2 < h * h) by (nonlinear_arith)
                requires
                    h2 < h,
            ;
        }
    }
}

/// Roots keep the order.
pub proof fn lemma_root_order(a: Double, b: Double)
    requires
        !a.nan(),
        !b.nan(),
        0 <= a.value() <= b.value(),
    ensures
        !a.root().nan(),
        !b.root().nan(),
        0 <= a.root().value() <= b.root().value(),
{
    lemma_units_order(a.magnitude(), 0);
    lemma_units_order(b.magnitude(), 0);
    lemma_units_order(a.magnitude(), b.magnitude());
    lemma_units_order(0, b.root().magnitude());
    let (x, y) = (
        rounding::units(a.magnitude()) * pow2(1074),
        rounding::units(b.magnitude()) * pow2(1074),
    );
    lemma_root_to_nearest(x);
    lemma_root_to_nearest(y);
    assert(x <= y) by (nonlinear_arith)
        requires
            x == rounding::units(a.magnitude()) * pow2(1074),
            y == rounding::units(b.magnitude()) * pow2(1074),
            rounding::units(a.magnitude()) <= rounding::units(b.magnitude()),
    ;
    lemma_rounded_root_order(x, y);
    lemma_units_order(a.root().magnitude(), b.root().magnitude());
    lemma_units_order(a.root().magnitude(), 0);
    lemma_units_order(a.root().magnitude(), INFINITE as nat);
}

impl Double {
    /// The same number; a zero may have either sign.
    pub open spec fn like(self, other: Double) -> bool {
        self.magnitude() == other.magnitude() && (self.magnitude() == 0 || self.negative()
            == other.negative())
    }

    /// The same number with the other sign. All that is not a number counts as the same.
    pub open spec fn mirrors(self, other: Double) -> bool {
        if self.nan() || other.nan() {
            self == Double::quiet() && other == Double::quiet()
        } else {
            self.like(other.negated())
        }
    }
}

/// Like numbers compare alike.
pub proof fn lemma_like(a: Double, b: Double)
    requires
        a.like(b),
    ensures
        a.nan() == b.nan(),
        a.value() == b.value(),
{
    lemma_units_order(0, 0);
}

/// Mirrored numbers are equally far from zero.
pub proof fn lemma_mirrors_magnitude(a: Double, b: Double)
    requires
        a.mirrors(b),
    ensures
        a.magnitude() == b.magnitude(),
{
}

/// Rounding treats both signs alike.
proof fn lemma_rounded_signs(negative: bool, n: nat, d: nat)
    ensures
        Double::rounded(negative, n, d).magnitude() == Double::rounded(
            !negative,
            n,
            d,
        ).magnitude(),
{
    lemma_rounded_to_nearest(negative, n, d);
    lemma_rounded_to_nearest(!negative, n, d);
    let c = choose|m: nat| rounding::nearest(n, d, m);
    assert(rounding::nearest(n, d, c));
}

/// Like numbers have like sums.
pub proof fn lemma_plus_like(a: Double, b: Double, a2: Double, b2: Double)
    requires
        a.like(a2),
        b.like(b2),
    ensures
        a.plus(b).like(a2.plus(b2)),
{
    lemma_like(a, a2);
    lemma_like(b, b2);
    assert(Double::pack(true, 0).magnitude() == 0 && Double::pack(false, 0).magnitude() == 0);
}

/// A difference taken the other way round is mirrored.
pub proof fn lemma_minus_mirrors(a: Double, b: Double)
    ensures
        a.minus(b).mirrors(b.minus(a)),
{
    lemma_units_order(0, 0);
    let (x, y) = (a.negated(), b.negated());
    assert(x.magnitude() == a.magnitude() && y.magnitude() == b.magnitude());
    assert(x.value() == -a.value() && y.value() == -b.value());
    assert(Double::pack(true, 0).magnitude() == 0 && Double::pack(false, 0).magnitude() == 0);
    let sum = a.value() + y.value();
    let n = if sum < 0 { (-sum) as nat } else { sum as nat };
    lemma_rounded_to_nearest(true, n, 1);
    lemma_rounded_to_nearest(false, n, 1);
    lemma_rounded_signs(true, n, 1);
}

/// Mirrored numbers have mirrored sums.
pub proof fn lemma_plus_mirrors(a: Double, b: Double, a2: Double, b2: Double)
    requires
        a.mirrors(a2),
        b.mirrors(b2),
    ensures
        a.plus(b).mirrors(a2.plus(b2)),
{
    lemma_units_order(0, 0);
    assert(Double::pack(true, 0).magnitude() == 0 && Double::pack(false, 0).magnitude() == 0);
    if !a.nan() && !b.nan() {
        lemma_like(a, a2.negated());
        lemma_like(b, b2.negated());
        assert(a2.value() == -a.value() && b2.value() == -b.value());
        let sum = a.value() + b.value();
        let n = if sum < 0 { (-sum) as nat } else { sum as nat };
        lemma_rounded_to_nearest(true, n, 1);
        lemma_rounded_to_nearest(false, n, 1);
        lemma_rounded_signs(true, n, 1);
    }
}

/// Two mirrored factors make a like product.
pub proof fn lemma_times_mirrors(a: Double, b: Double, a2: Double, b2: Double)
    requires
        a.mirrors(a2),
        b.mirrors(b2),
    ensures
        a.times(b).like(a2.times(b2)),
{
    lemma_times_either(a, b, a2, b2);
}

/// One mirrored factor makes a mirrored product.
pub proof fn lemma_scale_mirrors(a: Double, b: Double, a2: Double, b2: Double)
    requires
        a.mirrors(a2),
        b.like(b2),
    ensures
        a.times(b).mirrors(a2.times(b2)),
{
    lemma_times_either(a, b, a2, b2);
}

proof fn lemma_times_either(a: Double, b: Double, a2: Double, b2: Double)
    requires
        a.mirrors(a2),
        b.mirrors(b2) || b.like(b2),
    ensures
        b.mirrors(b2) ==> a.times(b).like(a2.times(b2)),
        b.like(b2) ==> a.times(b).mirrors(a2.times(b2)),
{
    lemma_units_order(0, 0);
    let d = pow2(1074);
    lemma_pow2_pos(1074);
    let (x, y) = (rounding::units(a.magnitude()), rounding::units(b.magnitude()));
    lemma_rounded_to_nearest(true, x * y, d);
    lemma_rounded_to_nearest(false, x * y, d);
    lemma_rounded_signs(true, x * y, d);
    lemma_zero_rounds_to_zero(true, d);
    lemma_zero_rounds_to_zero(false, d);
    assert(x == 0 || y == 0 ==> x * y == 0) by (nonlinear_arith);
}

/// Like numbers have like quotients.
pub proof fn lemma_over_like(a: Double, b: Double, a2: Double, b2: Double)
    requires
        a.like(a2),
        b.like(b2),
        b.magnitude() > 0,
    ensures
        a.over(b).like(a2.over(b2)),
{
    lemma_units_order(0, 0);
    lemma_units_order(b.magnitude(), 0);
    let (n, d) = (rounding::units(a.magnitude()) * pow2(1074), rounding::units(b.magnitude()));
    lemma_zero_rounds_to_zero(true, d);
    lemma_zero_rounds_to_zero(false, d);
    assert(0 * pow2(1074) == 0) by (nonlinear_arith);
    assert(Double::pack(true, 0).magnitude() == 0 && Double::pack(false, 0).magnitude() == 0);
}

/// Like numbers have like roots.
pub proof fn lemma_root_like(a: Double, b: Double)
    requires
        a.like(b),
    ensures
        a.root().like(b.root()),
{
}

/// The order of a sum does not matter.
pub proof fn lemma_plus_commutes(a: Double, b: Double)
    ensures
        a.plus(b) == b.plus(a),
{
    if a.infinite() && b.infinite() && a.negative() == b.negative() {
        assert(a.bits == b.bits);
    }
}

/// No number is farther from zero than an infinity.
proof fn lemma_at_most_infinite(a: Double)
    requires
        !a.nan(),
    ensures
        -(rounding::units(INFINITE as nat) as int) <= a.value() <= rounding::units(INFINITE as nat),
{
    lemma_units_order(a.magnitude(), INFINITE as nat);
    lemma_units_order(a.magnitude(), 0);
}

/// Rounding a whole number of units keeps the order, with either sign.
proof fn lemma_rounded_units_order(negative: bool, n: nat, n2: nat)
    requires
        n <= n2,
    ensures
        Double::rounded(negative, n, 1).magnitude() <= Double::rounded(negative, n2, 1).magnitude(),
        rounding::units(Double::rounded(negative, n, 1).magnitude()) <= rounding::units(
            Double::rounded(negative, n2, 1).magnitude(),
        ),
{
    lemma_rounded_to_nearest(negative, n, 1);
    lemma_rounded_to_nearest(negative, n2, 1);
    let m = Double::rounded(negative, n, 1).magnitude();
    let m2 = Double::rounded(negative, n2, 1).magnitude();
    lemma_nearest_order(n, 1, m, n2, 1, m2);
    lemma_units_order(m, m2);
}

/// Adding the larger of two numbers gives no less.
pub proof fn lemma_plus_order(a: Double, x: Double, y: Double)
    requires
        a.finite(),
        !x.nan(),
        !y.nan(),
        x.value() <= y.value(),
    ensures
        !a.plus(x).nan(),
        !a.plus(y).nan(),
        a.plus(x).value() <= a.plus(y).value(),
{
    lemma_units_order(0, 0);
    lemma_units_order(x.magnitude(), INFINITE as nat);
    lemma_units_order(y.magnitude(), INFINITE as nat);
    assert(Double::pack(true, 0).magnitude() == 0 && Double::pack(false, 0).magnitude() == 0);
    let (r, q) = (a.plus(x), a.plus(y));
    let (sx, sy) = (a.value() + x.value(), a.value() + y.value());
    let (nx, ny) = (
        if sx < 0 { (-sx) as nat } else { sx as nat },
        if sy < 0 { (-sy) as nat } else { sy as nat },
    );
    lemma_rounded_to_nearest(sx < 0, nx, 1);
    lemma_rounded_to_nearest(sy < 0, ny, 1);
    lemma_at_most_infinite(Double::rounded(sx < 0, nx, 1));
    lemma_at_most_infinite(Double::rounded(sy < 0, ny, 1));
    lemma_units_order(INFINITE as nat, x.magnitude());
    lemma_units_order(INFINITE as nat, y.magnitude());
    lemma_units_order(INFINITE as nat, 0);
    if !x.infinite() && !y.infinite() {
        if sx > 0 {
            lemma_rounded_units_order(false, nx, ny);
        }
        if sy < 0 {
            lemma_rounded_units_order(true, ny, nx);
        }
    }
}

/// Sums of numbers that are not negative grow with what is added.
pub proof fn lemma_sum_order(a: Double, b: Double, a2: Double, b2: Double)
    requires
        !a.nan() && !b.nan() && !a2.nan() && !b2.nan(),
        0 <= a.value() <= a2.value(),
        0 <= b.value() <= b2.value(),
    ensures
        !a.plus(b).nan(),
        !a2.plus(b2).nan(),
        0 <= a.plus(b).value() <= a2.plus(b2).value(),
{
    lemma_plus_grows(a, b);
    lemma_plus_grows(a2, b2);
    lemma_at_most_infinite(a.plus(b));
    lemma_units_order(a.magnitude(), INFINITE as nat);
    lemma_units_order(b.magnitude(), INFINITE as nat);
    lemma_units_order(INFINITE as nat, 0);
    if !a2.infinite() && !b2.infinite() {
        lemma_units_order(INFINITE as nat, a2.magnitude());
        lemma_units_order(INFINITE as nat, b2.magnitude());
        let (n, n2) = ((a.value() + b.value()) as nat, (a2.value() + b2.value()) as nat);
        assert(a.finite() && b.finite());
        lemma_units_order(0, 0);
        if n > 0 {
            lemma_rounded_units_order(false, n, n2);
            lemma_rounded_to_nearest(false, n, 1);
            lemma_rounded_to_nearest(false, n2, 1);
        } else {
            assert(Double::pack(a.negative() && b.negative(), 0).magnitude() == 0);
        }
    }
}

/// Products of numbers that are not negative grow with their factors.
pub proof fn lemma_product_order(a: Double, b: Double, a2: Double, b2: Double)
    requires
        !a.nan() && !b.nan() && !a2.nan() && !b2.nan(),
        0 <= a.value() <= a2.value(),
        0 <= b.value() <= b2.value(),
        a.infinite() ==> b.magnitude() > 0,
        b.infinite() ==> a.magnitude() > 0,
        a2.infinite() ==> b2.magnitude() > 0,
        b2.infinite() ==> a2.magnitude() > 0,
    ensures
        !a.times(b).nan(),
        !a2.times(b2).nan(),
        0 <= a.times(b).value() <= a2.times(b2).value(),
{
    lemma_times_sign(a, b);
    lemma_times_sign(a2, b2);
    lemma_at_most_infinite(a.times(b));
    lemma_units_order(0, 0);
    lemma_units_order(a.magnitude(), INFINITE as nat);
    lemma_units_order(b.magnitude(), INFINITE as nat);
    lemma_units_order(a2.magnitude(), INFINITE as nat);
    lemma_units_order(b2.magnitude(), INFINITE as nat);
    lemma_units_order(INFINITE as nat, 0);
    lemma_units_order(a2.magnitude(), 0);
    lemma_units_order(b2.magnitude(), 0);
    if a2.infinite() || b2.infinite() {
        assert(!a2.negative() || a2.magnitude() == 0);
        assert(a2.times(b2).magnitude() == INFINITE);
    } else {
        lemma_units_order(INFINITE as nat, a2.magnitude());
        lemma_units_order(INFINITE as nat, b2.magnitude());
        let one = pow2(1074);
        lemma_pow2_pos(1074);
        let (x, y) = (rounding::units(a.magnitude()), rounding::units(b.magnitude()));
        let (x2, y2) = (rounding::units(a2.magnitude()), rounding::units(b2.magnitude()));
        let (neg, neg2) = (a.negative() != b.negative(), a2.negative() != b2.negative());
        lemma_rounded_to_nearest(neg, x * y, one);
        lemma_rounded_to_nearest(neg2, x2 * y2, one);
        assert((x * y) * one <= (x2 * y2) * one) by (nonlinear_arith)
            requires
                x <= x2,
                y <= y2,
        ;
        let (m, m2) = (a.times(b).magnitude(), a2.times(b2).magnitude());
        lemma_nearest_order(x * y, one, m, x2 * y2, one, m2);
        lemma_units_order(m, m2);
        lemma_units_order(m, 0);
    }
}

/// Quotients by one positive number keep the order.
pub proof fn lemma_over_order(a: Double, a2: Double, b: Double)
    requires
        !a.nan() && !a2.nan(),
        0 <= a.value() <= a2.value(),
        b.finite(),
        b.value() > 0,
    ensures
        !a.over(b).nan(),
        !a2.over(b).nan(),
        0 <= a.over(b).value() <= a2.over(b).value(),
{
    lemma_over_sign(a, b);
    lemma_over_sign(a2, b);
    lemma_at_most_infinite(a.over(b));
    lemma_units_order(0, 0);
    lemma_units_order(a.magnitude(), INFINITE as nat);
    lemma_units_order(a2.magnitude(), INFINITE as nat);
    lemma_units_order(INFINITE as nat, 0);
    lemma_units_order(b.magnitude(), 0);
    if !a2.infinite() {
        lemma_units_order(INFINITE as nat, a2.magnitude());
        let (one, d) = (pow2(1074), rounding::units(b.magnitude()));
        let (x, x2) = (rounding::units(a.magnitude()), rounding::units(a2.magnitude()));
        lemma_rounded_to_nearest(a.negative() != b.negative(), x * one, d);
        lemma_rounded_to_nearest(a2.negative() != b.negative(), x2 * one, d);
        assert((x * one) * d <= (x2 * one) * d) by (nonlinear_arith)
            requires
                x <= x2,
        ;
        let (m, m2) = (a.over(b).magnitude(), a2.over(b).magnitude());
        lemma_nearest_order(x * one, d, m, x2 * one, d, m2);
        lemma_units_order(m, m2);
    }
}

/// A coordinate moves one way only as time goes on.
pub proof fn lemma_motion_order(a: Double, b: Double, t: Double, t2: Double)
    requires
        a.finite(),
        b.finite(),
        t.finite() && !t.negative(),
        t2.finite() && !t2.negative(),
        t.magnitude() <= t2.magnitude(),
    ensures
        !a.plus(b.times(t)).nan(),
        !a.plus(b.times(t2)).nan(),
        !b.negative() ==> a.plus(b.times(t)).value() <= a.plus(b.times(t2)).value(),
        b.negative() ==> a.plus(b.times(t2)).value() <= a.plus(b.times(t)).value(),
{
    let one = pow2(1074);
    lemma_pow2_pos(1074);
    let (x, y, y2) = (
        rounding::units(b.magnitude()),
        rounding::units(t.magnitude()),
        rounding::units(t2.magnitude()),
    );
    lemma_units_order(t.magnitude(), t2.magnitude());
    lemma_rounded_to_nearest(b.negative(), x * y, one);
    lemma_rounded_to_nearest(b.negative(), x * y2, one);
    assert((x * y) * one <= (x * y2) * one) by (nonlinear_arith)
        requires
            y <= y2,
    ;
    let (p, p2) = (b.times(t), b.times(t2));
    lemma_nearest_order(x * y, one, p.magnitude(), x * y2, one, p2.magnitude());
    lemma_units_order(p.magnitude(), p2.magnitude());
    if b.negative() {
        lemma_plus_order(a, p2, p);
    } else {
        lemma_plus_order(a, p, p2);
    }
}

/// A point farther out in both coordinates is no nearer.
pub proof fn lemma_distance_order(a: Double, b: Double, a2: Double, b2: Double)
    requires
        a.magnitude() <= a2.magnitude(),
        b.magnitude() <= b2.magnitude(),
        !a2.nan(),
        !b2.nan(),
    ensures
        !a.distance(b).nan(),
        !a2.distance(b2).nan(),
        a.distance(b).value() <= a2.distance(b2).value(),
{
    lemma_units_order(a.magnitude(), a2.magnitude());
    lemma_units_order(b.magnitude(), b2.magnitude());
    let (x, y, x2, y2) = (
        rounding::units(a.magnitude()),
        rounding::units(b.magnitude()),
        rounding::units(a2.magnitude()),
        rounding::units(b2.magnitude()),
    );
    assert(x * x + y * y <= x2 * x2 + y2 * y2) by (nonlinear_arith)
        requires
            x <= x2,
            y <= y2,
    ;
    lemma_root_to_nearest(x * x + y * y);
    lemma_root_to_nearest(x2 * x2 + y2 * y2);
    lemma_rounded_root_order(x * x + y * y, x2 * x2 + y2 * y2);
    lemma_units_order(
        Double::rounded_root(x * x + y * y).magnitude(),
        Double::rounded_root(x2 * x2 + y2 * y2).magnitude(),
    );
    lemma_at_most_infinite(a.distance(b));
}

/// Signed magnitudes are in the order of the values.
pub proof fn lemma_signed_order(a: Double, b: Double)
    ensures
        a.signed() <= b.signed() <==> a.value() <= b.value(),
        a.signed() == b.signed() <==> a.value() == b.value(),
{
    lemma_units_order(a.magnitude(), b.magnitude());
    lemma_units_order(b.magnitude(), a.magnitude());
    lemma_units_order(a.magnitude(), 0);
    lemma_units_order(b.magnitude(), 0);
}

/// Where no precision is lost to a small magnitude, rounding adds at most one part in 2^53.
pub proof fn lemma_rounds_close(n: nat, d: nat, m: nat)
    requires
        rounding::nearest(n, d, m),
        m == 0 || rounding::HIDDEN < m,
    ensures
        (rounding::units(m) * d) * 0x20_0000_0000_0000 <= n * 0x20_0000_0000_0001,
{
    lemma_units_order(0, 0);
    if m > 0 {
        let h = rounding::HIDDEN as nat;
        let k = (m - 1) as nat;
        let (t, q) = ((k / h - 1) as nat, h + k % h);
        rounding::lemma_units_at(t, q);
        assert(t * h + q == k);
        let g = pow2(t);
        let (u, v) = (rounding::units(k), rounding::units(m));
        assert(u == q * g && v == (q + 1) * g);
        assert(v == u + g) by (nonlinear_arith)
            requires
                u == q * g,
                v == (q + 1) * g,
        ;
        assert(u >= h * g) by (nonlinear_arith)
            requires
                u == q * g,
                q >= h,
        ;
        assert((2 * v) * 0x20_0000_0000_0000 <= (u + v) * 0x20_0000_0000_0001);
        assert((v * d) * 0x20_0000_0000_0000 <= n * 0x20_0000_0000_0001) by (nonlinear_arith)
            requires
                (2 * v) * 0x20_0000_0000_0000 <= (u + v) * 0x20_0000_0000_0001,
                d * (u + v) <= 2 * n,
        ;
    } else {
        assert((0 * d) * 0x20_0000_0000_0000 == 0) by (nonlinear_arith);
    }
}

/// The magnitude of a power of two.
pub proof fn lemma_power(i: nat)
    requires
        i <= 1000,
    ensures
        rounding::units((1023 + i) * rounding::HIDDEN as nat) == pow2(1074 + i),
        (1023 + i) * (rounding::HIDDEN as nat) < INFINITE,
{
    let h = rounding::HIDDEN as nat;
    rounding::lemma_units_at(1022 + i, h);
    lemma2_to64_rest();
    lemma_pow2_adds(52, 1022 + i);
    assert((1022 + i) * h + h == (1023 + i) * h) by (nonlinear_arith);
    assert(h * pow2(1022 + i) == pow2(52) * pow2(1022 + i));
}

/// A product of numbers below powers of two is below their product.
pub proof fn lemma_times_below(a: Double, b: Double, i: nat, j: nat)
    requires
        a.finite(),
        b.finite(),
        rounding::units(a.magnitude()) <= pow2(1074 + i),
        rounding::units(b.magnitude()) <= pow2(1074 + j),
        i + j <= 1000,
    ensures
        a.times(b).finite(),
        rounding::units(a.times(b).magnitude()) <= pow2(1074 + i + j),
{
    let one = pow2(1074);
    lemma_pow2_pos(1074);
    let (x, y) = (rounding::units(a.magnitude()), rounding::units(b.magnitude()));
    let neg = a.negative() != b.negative();
    lemma_rounded_to_nearest(neg, x * y, one);
    lemma_power(i + j);
    let m = (1023 + (i + j)) * rounding::HIDDEN as nat;
    lemma_nearest_exact(m, 1);
    let u = rounding::units(m);
    assert(u * 1 == u);
    lemma_pow2_adds(1074, i);
    lemma_pow2_adds(1074, j);
    lemma_pow2_adds(i, j);
    lemma_pow2_adds(1074, i + j);
    let (p, q) = (pow2(i), pow2(j));
    assert((x * y) * 1 <= u * one) by (nonlinear_arith)
        requires
            x <= one * p,
            y <= one * q,
            u == one * (p * q),
    ;
    lemma_nearest_order(x * y, one, a.times(b).magnitude(), u, 1, m);
    lemma_units_order(a.times(b).magnitude(), m);
}

/// The double nearest to a quotient below a power of two is below it too.
pub proof fn lemma_quotient_below(negative: bool, n: nat, d: nat, i: nat)
    requires
        d > 0,
        n <= pow2(i),
        i <= 1000,
    ensures
        Double::quotient(negative, n, d).finite(),
        rounding::units(Double::quotient(negative, n, d).magnitude()) <= pow2(1074 + i),
{
    let one = pow2(1074);
    lemma_rounded_to_nearest(negative, n * one, d);
    lemma_power(i);
    let m = (1023 + i) * rounding::HIDDEN as nat;
    lemma_nearest_exact(m, 1);
    let u = rounding::units(m);
    assert(u * 1 == u);
    lemma_pow2_adds(1074, i);
    let p = pow2(i);
    assert((n * one) * 1 <= u * d) by (nonlinear_arith)
        requires
            n <= p,
            u == one * p,
            d > 0,
    ;
    let r = Double::quotient(negative, n, d).magnitude();
    lemma_nearest_order(n * one, d, r, u, 1, m);
    lemma_units_order(r, m);
}

/// A sum of two numbers below a power of two is below the next one.
pub proof fn lemma_sum_below(a: Double, b: Double, i: nat)
    requires
        a.finite() && a.value() >= 0,
        b.finite() && b.value() >= 0,
        rounding::units(a.magnitude()) <= pow2(1074 + i),
        rounding::units(b.magnitude()) <= pow2(1074 + i),
        i < 1000,
    ensures
        a.plus(b).finite(),
        rounding::units(a.plus(b).magnitude()) <= pow2(1074 + i + 1),
{
    lemma_units_order(0, 0);
    lemma_units_order(a.magnitude(), 0);
    lemma_units_order(b.magnitude(), 0);
    lemma_power(i + 1);
    lemma_pow2_unfold(1074 + i + 1);
    let m = (1023 + (i + 1)) * rounding::HIDDEN as nat;
    let n = (a.value() + b.value()) as nat;
    if n > 0 {
        lemma_rounded_to_nearest(false, n, 1);
        lemma_nearest_exact(m, 1);
        let u = rounding::units(m);
        assert(u * 1 == u);
        lemma_nearest_order(n, 1, a.plus(b).magnitude(), u, 1, m);
        lemma_units_order(a.plus(b).magnitude(), m);
    } else {
        assert(Double::pack(a.negative() && b.negative(), 0).magnitude() == 0);
    }
}

/// The cube of a number that is not larger is finite where that of the other is.
pub proof fn lemma_cube_order(a: Double, b: Double)
    requires
        !a.nan() && !b.nan(),
        0 < a.value() <= b.value(),
        b.times(b).times(b).finite(),
    ensures
        a.finite() && b.finite(),
        a.times(a).times(a).finite(),
{
    lemma_units_order(0, 0);
    lemma_units_order(a.magnitude(), 0);
    lemma_units_order(b.magnitude(), 0);
    lemma_units_order(a.magnitude(), b.magnitude());
    assert(b.finite());
    let (a2, b2) = (a.times(a), b.times(b));
    lemma_product_order(a, a, b, b);
    lemma_units_order(a2.magnitude(), b2.magnitude());
    lemma_units_order(a2.magnitude(), 0);
    lemma_units_order(b2.magnitude(), 0);
    assert(b2.finite() && a2.finite());
    lemma_product_order(a2, a, b2, b);
    let (a3, b3) = (a2.times(a), b2.times(b));
    lemma_units_order(a3.magnitude(), b3.magnitude());
    lemma_units_order(a3.magnitude(), 0);
    lemma_units_order(b3.magnitude(), 0);
}

/// How far a whole number is from zero.
pub open spec fn size(x: int) -> int {
    if x < 0 {
        -x
    } else {
        x
    }
}

/// Rounding a positive number is off by at most one part in 2^53, or half a unit.
pub proof fn lemma_rounding_error(n: nat, d: nat, m: nat)
    requires
        rounding::nearest(n, d, m),
        m < INFINITE,
    ensures
        size(rounding::units(m) * d - n) * 0x20_0000_0000_0000 <= n + d * 0x10_0000_0000_0000,
{
    let h = rounding::HIDDEN as nat;
    let u = rounding::units(m);
    lemma_step(m);
    let up = rounding::units(m + 1) - u;
    assert(2 * n <= d * (2 * u + up));
    assert(2 * n - 2 * (u * d) <= d * up) by (nonlinear_arith)
        requires
            2 * n <= d * (2 * u + up),
    ;
    if up == 1 {
        assert(d * up == d) by (nonlinear_arith)
            requires
                up == 1,
        ;
    } else {
        assert((d * up) * h <= u * d) by (nonlinear_arith)
            requires
                h * up <= u,
        ;
    }
    if m > 0 {
        let k = (m - 1) as nat;
        lemma_step(k);
        let below = rounding::units(k);
        let down = u - below;
        assert(d * (2 * u - down) <= 2 * n);
        assert(2 * (u * d) - 2 * n <= d * down) by (nonlinear_arith)
            requires
                d * (2 * u - down) <= 2 * n,
        ;
        if down == 1 {
            assert(d * down == d) by (nonlinear_arith)
                requires
                    down == 1,
            ;
        } else {
            assert((d * down) * h <= d * below) by (nonlinear_arith)
                requires
                    h * down <= below,
            ;
            assert(2 * (d * below) <= d * (2 * u - down)) by (nonlinear_arith)
                requires
                    2 * below <= 2 * u - down,
            ;
        }
    } else {
        lemma_units_order(0, 0);
        assert(0 * d == 0) by (nonlinear_arith);
    }
}

/// A magnitude and the next are one unit apart, or one part in 2^52.
proof fn lemma_step(m: nat)
    ensures
        ({
            let g = rounding::units(m + 1) - rounding::units(m);
            g >= 1 && (g == 1 || rounding::HIDDEN * g <= rounding::units(m))
        }),
{
    let h = rounding::HIDDEN as nat;
    let t: nat = if m < h { 0 } else { (m / h - 1) as nat };
    let q: nat = if m < h { m } else { h + m % h };
    rounding::lemma_units_at(t, q);
    assert(t * h + q == m);
    let c = pow2(t);
    lemma_pow2_pos(t);
    assert((q + 1) * c == q * c + c) by (nonlinear_arith);
    if m >= h {
        assert(h * c <= q * c) by (nonlinear_arith)
            requires
                h <= q,
        ;
    } else {
        lemma2_to64();
    }
}

/// How far a rounded sum is from the exact one.
pub proof fn lemma_plus_error(a: Double, b: Double)
    requires
        a.finite(),
        b.finite(),
        a.plus(b).finite(),
    ensures
        size(a.plus(b).value() - (a.value() + b.value())) * 0x20_0000_0000_0000 <= size(
            a.value() + b.value(),
        ) + 0x10_0000_0000_0000,
{
    let sum = a.value() + b.value();
    lemma_units_order(0, 0);
    if sum == 0 {
        assert(Double::pack(a.negative() && b.negative(), 0).magnitude() == 0);
    } else {
        let n = size(sum) as nat;
        lemma_rounded_to_nearest(sum < 0, n, 1);
        let m = a.plus(b).magnitude();
        lemma_rounding_error(n, 1, m);
        assert(rounding::units(m) * 1 == rounding::units(m));
    }
}

/// How far a rounded product is from the exact one.
pub proof fn lemma_times_error(a: Double, b: Double)
    requires
        a.finite(),
        b.finite(),
        a.times(b).finite(),
    ensures
        size(a.times(b).value() * pow2(1074) - a.value() * b.value()) * 0x20_0000_0000_0000 <= size(
            a.value() * b.value(),
        ) + pow2(1074) * 0x10_0000_0000_0000,
        a.value() * b.value() >= 0 ==> a.times(b).value() >= 0,
        a.value() * b.value() <= 0 ==> a.times(b).value() <= 0,
{
    let one = pow2(1074);
    lemma_pow2_pos(1074);
    lemma_units_order(0, 0);
    let (x, y) = (rounding::units(a.magnitude()), rounding::units(b.magnitude()));
    let n = x * y;
    let neg = a.negative() != b.negative();
    lemma_rounded_to_nearest(neg, n, one);
    let m = a.times(b).magnitude();
    lemma_rounding_error(n, one, m);
    let u = rounding::units(m);
    let (va, vb, v) = (a.value(), b.value(), a.times(b).value());
    if neg {
        assert(va * vb == -(n as int) && v * one == -((u * one) as int)) by (nonlinear_arith)
            requires
                va == -(x as int) && vb == y || va == x && vb == -(y as int),
                n == x * y,
                v == -(u as int),
        ;
    } else {
        assert(va * vb == n && v * one == u * one) by (nonlinear_arith)
            requires
                va == -(x as int) && vb == -(y as int) || va == x && vb == y,
                n == x * y,
                v == u,
        ;
    }
    if n == 0 {
        lemma_zero_rounds_to_zero(neg, one);
    }
}

/// How far a rounded quotient by a positive number is from the exact one.
pub proof fn lemma_over_error(a: Double, b: Double)
    requires
        a.finite(),
        b.finite(),
        b.value() > 0,
        a.over(b).finite(),
    ensures
        size(a.over(b).value() * b.value() - a.value() * pow2(1074)) * 0x20_0000_0000_0000 <= size(
            a.value(),
        ) * pow2(1074) + b.value() * 0x10_0000_0000_0000,
        a.value() >= 0 ==> a.over(b).value() >= 0,
        a.value() <= 0 ==> a.over(b).value() <= 0,
{
    let one = pow2(1074);
    lemma_units_order(0, 0);
    lemma_units_order(a.magnitude(), 0);
    lemma_units_order(b.magnitude(), 0);
    let (x, d) = (rounding::units(a.magnitude()), rounding::units(b.magnitude()));
    lemma_rounded_to_nearest(a.negative(), x * one, d);
    let m = a.over(b).magnitude();
    lemma_rounding_error(x * one, d, m);
    let u = rounding::units(m);
    let (va, v) = (a.value(), a.over(b).value());
    if a.negative() {
        assert(va * one == -((x * one) as int) && v * d == -((u * d) as int)) by (nonlinear_arith)
            requires
                va == -(x as int),
                v == -(u as int),
        ;
    }
    if x == 0 {
        assert(0 * one == 0) by (nonlinear_arith);
        lemma_zero_rounds_to_zero(a.negative(), d);
    }
}

/// The order of a product does not matter.
pub proof fn lemma_times_commutes(a: Double, b: Double)
    ensures
        a.times(b) == b.times(a),
{
    let (x, y) = (rounding::units(a.magnitude()), rounding::units(b.magnitude()));
    assert(x * y == y * x) by (nonlinear_arith);
}

/// The square of a rounded root is off by a few parts in 2^53.
pub proof fn lemma_rounded_root_error(n: nat, m: nat)
    requires
        rounding::nearest_root(n, m),
        m < INFINITE,
    ensures
        ({
            let u = rounding::units(m);
            size(u * u - n) * 0x10_0000_0000_0000 <= 2 * (u * u)
                + 0x4_0000_0000_0000_0000_0000_0000_0000
        }),
{
    let h = rounding::HIDDEN as int;
    let u = rounding::units(m) as int;
    lemma_step(m);
    let up = rounding::units(m + 1) - u;
    assert(rounding::halfway(m) == 2 * u + up);
    assert(4 * (n - u * u) <= 4 * (u * up) + up * up) by (nonlinear_arith)
        requires
            4 * n <= (2 * u + up) * (2 * u + up),
    ;
    if up == 1 {
        lemma_small_step(m);
        assert(u * up == u && up * up == 1) by (nonlinear_arith)
            requires
                up == 1,
        ;
    } else {
        assert(up * up <= u * up) by (nonlinear_arith)
            requires
                h * up <= u,
                h > 1,
                up >= 1,
        ;
        assert((u * up) * h <= u * u) by (nonlinear_arith)
            requires
                h * up <= u,
                u >= 0,
        ;
    }
    assert(u * u >= 0) by (nonlinear_arith);
    if m > 0 {
        let k = (m - 1) as nat;
        lemma_step(k);
        let below = rounding::units(k) as int;
        let down = u - below;
        assert(rounding::halfway(k) == 2 * u - down);
        assert(4 * (u * u - n) <= 4 * (u * down)) by (nonlinear_arith)
            requires
                (2 * u - down) * (2 * u - down) <= 4 * n,
        ;
        if down == 1 {
            lemma_small_step(k);
            assert(u * down == u) by (nonlinear_arith)
                requires
                    down == 1,
            ;
        } else {
            assert((u * down) * h <= u * u) by (nonlinear_arith)
                requires
                    h * down <= below,
                    below <= u,
                    u >= 0,
            ;
        }
    } else {
        lemma_units_order(0, 0);
        assert(u * u == 0) by (nonlinear_arith)
            requires
                u == 0,
        ;
    }
}

/// Where magnitudes are one unit apart they are below 2^53 units.
proof fn lemma_small_step(m: nat)
    requires
        rounding::units(m + 1) - rounding::units(m) == 1,
    ensures
        rounding::units(m) < 2 * rounding::HIDDEN,
{
    let h = rounding::HIDDEN as nat;
    let t: nat = if m < h { 0 } else { (m / h - 1) as nat };
    let q: nat = if m < h { m } else { h + m % h };
    rounding::lemma_units_at(t, q);
    assert(t * h + q == m);
    let c = pow2(t);
    lemma_pow2_pos(t);
    assert((q + 1) * c == q * c + c) by (nonlinear_arith);
    assert(q * c == q) by (nonlinear_arith)
        requires
            c == 1,
    ;
}

/// How far the square of a root is from the number.
pub proof fn lemma_root_error(x: Double)
    requires
        x.finite(),
        x.value() > 0,
        x.root().finite(),
    ensures
        ({
            let r = x.root().value();
            &&& r >= 0
            &&& size(r * r - x.value() * pow2(1074)) * 0x10_0000_0000_0000 <= 2 * (r * r)
                + 0x4_0000_0000_0000_0000_0000_0000_0000
        }),
{
    lemma_units_order(0, 0);
    lemma_units_order(x.magnitude(), 0);
    let n = rounding::units(x.magnitude()) * pow2(1074);
    lemma_root_to_nearest(n);
    lemma_rounded_root_error(n, x.root().magnitude());
}

/// How far the square of a distance is from the sum of the squares.
pub proof fn lemma_distance_error(a: Double, b: Double)
    requires
        a.finite(),
        b.finite(),
        a.distance(b).finite(),
    ensures
        ({
            let r = a.distance(b).value();
            &&& r >= 0
            &&& size(r * r - (a.value() * a.value() + b.value() * b.value()))
                * 0x10_0000_0000_0000 <= 2 * (r * r) + 0x4_0000_0000_0000_0000_0000_0000_0000
        }),
{
    lemma_units_order(0, 0);
    let (x, y) = (rounding::units(a.magnitude()), rounding::units(b.magnitude()));
    lemma_root_to_nearest(x * x + y * y);
    lemma_rounded_root_error(x * x + y * y, a.distance(b).magnitude());
    let (p, q) = (a.value(), b.value());
    assert(p * p == x * x) by (nonlinear_arith)
        requires
            p == x || p == -(x as int),
    ;
    assert(q * q == y * y) by (nonlinear_arith)
        requires
            q == y || q == -(y as int),
    ;
}

/// What is at most a power of two is so when rounded.
pub proof fn lemma_rounds_below(n: nat, d: nat, m: nat, i: nat)
    requires
        d > 0,
        rounding::nearest(n, d, m),
        n <= d * pow2(1074 + i),
        i <= 1000,
    ensures
        m < INFINITE,
{
    lemma_power(i);
    let p = (1023 + i) * rounding::HIDDEN as nat;
    lemma_nearest_exact(p, 1);
    let u = rounding::units(p);
    assert(n * 1 <= (u * 1) * d) by (nonlinear_arith)
        requires
            n <= d * u,
    ;
    lemma_nearest_order(n, d, m, u * 1, 1, p);
}

} // verus!
