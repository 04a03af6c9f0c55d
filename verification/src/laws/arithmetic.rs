//! Rounded arithmetic: no double is closer to the exact result than the one that is given.
use crate::double::facts;
use crate::double::rounding;
use crate::double::rounding::INFINITE;
use crate::double::Double;
use crate::laws::closeness;
use vstd::arithmetic::power2::*;
use vstd::prelude::*;

verus! {

/// The magnitude nearest to `n / d` is as near as any; where another is just as near, it is
/// the even one.
pub proof fn law_nearest(n: nat, d: nat, m: nat, other: nat)
    requires
        d > 0,
        rounding::nearest(n, d, m),
        m < INFINITE,
    ensures
        ({
            let (a, b) = (rounding::units(m) * d - n, rounding::units(other) * d - n);
            &&& facts::size(a) <= facts::size(b)
            &&& facts::size(a) == facts::size(b) && other != m ==> m % 2 == 0
        }),
{
    let (u, w) = (rounding::units(m), rounding::units(other));
    if other > m {
        let v = rounding::units(m + 1);
        facts::lemma_units_order(m + 1, other);
        facts::lemma_units_order(other, m + 1);
        facts::lemma_units_order(m + 1, m);
        assert(d * (u + v) <= d * (u + w)) by (nonlinear_arith)
            requires
                v <= w,
        ;
        assert(d * (u + w) == u * d + w * d) by (nonlinear_arith);
        assert(u * d < w * d) by (nonlinear_arith)
            requires
                u < v,
                v <= w,
                d > 0,
        ;
        if other > m + 1 {
            assert(d * (u + v) < d * (u + w)) by (nonlinear_arith)
                requires
                    v < w,
                    d > 0,
            ;
        }
    } else if other < m {
        let k = (m - 1) as nat;
        let v = rounding::units(k);
        facts::lemma_units_order(other, k);
        facts::lemma_units_order(k, other);
        facts::lemma_units_order(m, k);
        assert(d * (w + u) <= d * (v + u)) by (nonlinear_arith)
            requires
                w <= v,
        ;
        assert(d * (w + u) == u * d + w * d) by (nonlinear_arith);
        assert(w * d < u * d) by (nonlinear_arith)
            requires
                w <= v,
                v < u,
                d > 0,
        ;
        if other < k {
            assert(d * (w + u) < d * (v + u)) by (nonlinear_arith)
                requires
                    w < v,
                    d > 0,
            ;
        }
    }
}

/// The same of signed numbers: `x` is `n / d` rounded, of its sign, and `y` any other.
pub proof fn lemma_nearest_signed(x: Double, n: int, d: int, y: Double)
    requires
        d > 0,
        x.finite(),
        rounding::nearest(facts::size(n) as nat, d as nat, x.magnitude()),
        n != 0 ==> x.negative() == (n < 0),
    ensures
        facts::size(x.value() * d - n) <= facts::size(y.value() * d - n),
        facts::size(x.value() * d - n) == facts::size(y.value() * d - n) && y.value() != x.value()
            ==> x.magnitude() % 2 == 0,
{
    let k = facts::size(n) as nat;
    let (u, w) = (rounding::units(x.magnitude()), rounding::units(y.magnitude()));
    law_nearest(k, d as nat, x.magnitude(), y.magnitude());
    law_nearest(k, d as nat, x.magnitude(), 0);
    facts::lemma_units_order(0, 0);
    assert(0 * d == 0) by (nonlinear_arith);
    assert((-(u as int)) * d == -(u * d) && (-(w as int)) * d == -(w * d)) by (nonlinear_arith);
    assert(u * d >= 0 && w * d >= 0) by (nonlinear_arith)
        requires
            d > 0,
            u >= 0,
            w >= 0,
    ;
    facts::lemma_units_order(x.magnitude(), y.magnitude());
    facts::lemma_units_order(y.magnitude(), x.magnitude());
    if w > 0 {
        assert(w * d > 0) by (nonlinear_arith)
            requires
                d > 0,
                w > 0,
        ;
    }
    if u > 0 {
        assert(u * d > 0) by (nonlinear_arith)
            requires
                d > 0,
                u > 0,
        ;
    }
    if n == 0 {
        facts::lemma_nearest_exact(0, d as nat);
        rounding::lemma_nearest_unique(0, d as nat, 0, x.magnitude());
    }
}

/// No double is closer to the sum than the rounded one.
pub proof fn law_sums(a: Double, b: Double, y: Double)
    requires
        a.finite() && b.finite(),
        a.plus(b).finite(),
    ensures
        ({
            let (x, n) = (a.plus(b).value(), a.value() + b.value());
            &&& facts::size(x - n) <= facts::size(y.value() - n)
            &&& facts::size(x - n) == facts::size(y.value() - n) && y.value() != x ==> a.plus(
                b,
            ).magnitude() % 2 == 0
        }),
{
    let n = a.value() + b.value();
    facts::lemma_units_order(0, 0);
    let k = facts::size(n) as nat;
    if n == 0 {
        assert(Double::pack(a.negative() && b.negative(), 0).magnitude() == 0);
    } else {
        facts::lemma_rounded_to_nearest(n < 0, k, 1);
        lemma_nearest_signed(a.plus(b), n, 1, y);
        assert(a.plus(b).value() * 1 == a.plus(b).value() && y.value() * 1 == y.value());
    }
}

/// No double is closer to the product than the rounded one.
pub proof fn law_products(a: Double, b: Double, y: Double)
    requires
        a.finite() && b.finite(),
        a.times(b).finite(),
    ensures
        ({
            let (x, n, o) = (a.times(b).value(), a.value() * b.value(), closeness::whole());
            &&& facts::size(x * o - n) <= facts::size(y.value() * o - n)
            &&& facts::size(x * o - n) == facts::size(y.value() * o - n) && y.value() != x
                ==> a.times(b).magnitude() % 2 == 0
        }),
{
    lemma_pow2_pos(1074);
    facts::lemma_units_order(0, 0);
    let (u, w) = (rounding::units(a.magnitude()), rounding::units(b.magnitude()));
    let n = a.value() * b.value();
    closeness::lemma_size(a.value(), b.value());
    let negative = a.negative() != b.negative();
    facts::lemma_rounded_to_nearest(negative, u * w, pow2(1074));
    assert(n != 0 ==> negative == (n < 0)) by {
        lemma_sign_of_product(a.value(), b.value());
        facts::lemma_units_order(a.magnitude(), 0);
        facts::lemma_units_order(b.magnitude(), 0);
    }
    lemma_nearest_signed(a.times(b), n, closeness::whole(), y);
}

proof fn lemma_sign_of_product(a: int, b: int)
    ensures
        a * b != 0 ==> a != 0 && b != 0 && ((a * b < 0) == ((a < 0) != (b < 0))),
{
    assert(a > 0 && b > 0 ==> a * b > 0) by (nonlinear_arith);
    assert(a < 0 && b < 0 ==> a * b > 0) by (nonlinear_arith);
    assert(a > 0 && b < 0 ==> a * b < 0) by (nonlinear_arith);
    assert(a < 0 && b > 0 ==> a * b < 0) by (nonlinear_arith);
    assert(a == 0 || b == 0 ==> a * b == 0) by (nonlinear_arith);
}

/// No double is closer to the quotient than the rounded one.
pub proof fn law_quotients(a: Double, b: Double, y: Double)
    requires
        a.finite() && b.finite(),
        b.value() > 0,
        a.over(b).finite(),
    ensures
        ({
            let (x, n, d) = (a.over(b).value(), a.value() * closeness::whole(), b.value());
            &&& facts::size(x * d - n) <= facts::size(y.value() * d - n)
            &&& facts::size(x * d - n) == facts::size(y.value() * d - n) && y.value() != x
                ==> a.over(b).magnitude() % 2 == 0
        }),
{
    lemma_pow2_pos(1074);
    facts::lemma_units_order(0, 0);
    facts::lemma_units_order(b.magnitude(), 0);
    let (u, w, o) = (
        rounding::units(a.magnitude()),
        rounding::units(b.magnitude()),
        closeness::whole(),
    );
    let n = a.value() * o;
    closeness::lemma_size(a.value(), o);
    lemma_sign_of_product(a.value(), o);
    facts::lemma_rounded_to_nearest(a.negative(), u * pow2(1074), w);
    lemma_nearest_signed(a.over(b), n, b.value(), y);
}

/// A root is the double nearest to the exact one: half way to any larger double is not below
/// the root, and half way to any smaller one not above it.
pub proof fn law_roots(x: Double, y: Double)
    requires
        x.finite() && x.value() > 0,
        x.root().finite(),
        !y.negative(),
    ensures
        ({
            let (r, n) = (x.root().value(), x.value() * closeness::whole());
            let s = r + y.value();
            &&& r >= 0
            &&& y.value() > r ==> 4 * n <= s * s
            &&& y.value() < r ==> s * s <= 4 * n
        }),
{
    facts::lemma_units_order(0, 0);
    facts::lemma_units_order(x.magnitude(), 0);
    let n = rounding::units(x.magnitude()) * pow2(1074);
    facts::lemma_root_to_nearest(n);
    lemma_nearest_root(n, x.root().magnitude(), y.magnitude());
}

proof fn lemma_nearest_root(n: nat, m: nat, other: nat)
    requires
        rounding::nearest_root(n, m),
        m < INFINITE,
    ensures
        ({
            let (u, w) = (rounding::units(m), rounding::units(other));
            &&& w > u ==> 4 * n <= (u + w) * (u + w)
            &&& w < u ==> (u + w) * (u + w) <= 4 * n
        }),
{
    let (u, w) = (rounding::units(m), rounding::units(other));
    facts::lemma_units_order(other, m);
    facts::lemma_units_order(m, other);
    if w > u {
        let v = rounding::units(m + 1);
        facts::lemma_units_order(m + 1, other);
        assert((u + v) * (u + v) <= (u + w) * (u + w)) by (nonlinear_arith)
            requires
                v <= w,
        ;
    } else if w < u {
        let v = rounding::units((m - 1) as nat);
        facts::lemma_units_order(other, (m - 1) as nat);
        assert((u + w) * (u + w) <= (v + u) * (v + u)) by (nonlinear_arith)
            requires
                w <= v,
        ;
    }
}

/// A distance is the double nearest to the root of the sum of the squares.
pub proof fn law_distances(a: Double, b: Double, y: Double)
    requires
        a.finite() && b.finite(),
        a.distance(b).finite(),
        !y.negative(),
    ensures
        ({
            let r = a.distance(b).value();
            let n = a.value() * a.value() + b.value() * b.value();
            let s = r + y.value();
            &&& r >= 0
            &&& y.value() > r ==> 4 * n <= s * s
            &&& y.value() < r ==> s * s <= 4 * n
        }),
{
    facts::lemma_units_order(0, 0);
    let (u, w) = (rounding::units(a.magnitude()), rounding::units(b.magnitude()));
    let (p, q) = (a.value(), b.value());
    assert(p * p == u * u) by (nonlinear_arith)
        requires
            p == u || p == -(u as int),
    ;
    assert(q * q == w * w) by (nonlinear_arith)
        requires
            q == w || q == -(w as int),
    ;
    facts::lemma_root_to_nearest(u * u + w * w);
    lemma_nearest_root(u * u + w * w, a.distance(b).magnitude(), y.magnitude());
}

} // verus!
