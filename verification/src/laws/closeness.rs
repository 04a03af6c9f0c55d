//! Exact values that computed ones are close to.
//!
//! Rounding errors are counted in grains of 2^-60, small parts of a metre or a second.
use crate::double::facts;
use crate::double::rounding;
use crate::double::Double;
use vstd::arithmetic::power2::*;
use vstd::prelude::*;

verus! {

/// 2^-60, in units of doubles.
pub open spec fn grain() -> int {
    pow2(1014) as int
}

/// The number one, in units of doubles.
pub open spec fn whole() -> int {
    pow2(1074) as int
}

/// The number is no farther from zero than `m`.
pub open spec fn within(x: Double, m: int) -> bool {
    x.finite() && facts::size(x.value()) <= m * whole()
}

/// The number is `n / d`, in units of doubles, but for at most `t` grains.
pub open spec fn near(x: Double, n: int, d: int, t: int) -> bool {
    x.finite() && facts::size(x.value() * d - n) <= t * (grain() * d)
}

pub proof fn lemma_grains()
    ensures
        grain() > 0,
        whole() == 0x1000_0000_0000_0000 * grain(),
{
    lemma_pow2_pos(1014);
    lemma_pow2_adds(60, 1014);
    lemma2_to64_rest();
}

/// The size of a product.
pub proof fn lemma_size(a: int, b: int)
    ensures
        facts::size(a * b) == facts::size(a) * facts::size(b),
{
    let (p, q) = (facts::size(a), facts::size(b));
    assert(a * b == p * q || a * b == -(p * q)) by (nonlinear_arith)
        requires
            a == p || a == -p,
            b == q || b == -q,
    ;
    assert(p * q >= 0) by (nonlinear_arith)
        requires
            p >= 0,
            q >= 0,
    ;
}

/// Products of bounded sizes are bounded.
pub proof fn lemma_bounded(a: int, b: int, x: int, y: int)
    requires
        facts::size(a) <= x,
        facts::size(b) <= y,
    ensures
        facts::size(a * b) <= x * y,
{
    lemma_size(a, b);
    let (p, q) = (facts::size(a), facts::size(b));
    assert(p * q <= x * y) by (nonlinear_arith)
        requires
            0 <= p <= x,
            0 <= q <= y,
    ;
}

/// A number is what it is.
pub proof fn lemma_itself(x: Double)
    requires
        x.finite(),
    ensures
        near(x, x.value(), 1, 0),
{
    assert(x.value() * 1 == x.value());
    assert(0 * (grain() * 1) == 0);
}

/// The same fraction, otherwise written.
pub proof fn lemma_expanded(x: Double, n: int, d: int, t: int, k: int)
    requires
        near(x, n, d, t),
        k > 0,
    ensures
        near(x, n * k, d * k, t),
{
    let v = x.value();
    let (z, b) = (v * d - n, t * (grain() * d));
    assert(v * (d * k) - n * k == z * k) by (nonlinear_arith)
        requires
            z == v * d - n,
    ;
    lemma_size(z, k);
    let s = facts::size(z);
    let g = grain();
    assert(s * k <= t * (g * (d * k))) by (nonlinear_arith)
        requires
            s <= t * (g * d),
            k > 0,
    ;
}

/// The same fraction, in smaller terms.
pub proof fn lemma_reduced(x: Double, n: int, d: int, t: int, k: int)
    requires
        near(x, n * k, d * k, t),
        k > 0,
    ensures
        near(x, n, d, t),
{
    let v = x.value();
    let z = v * d - n;
    assert(v * (d * k) - n * k == z * k) by (nonlinear_arith)
        requires
            z == v * d - n,
    ;
    lemma_size(z, k);
    let s = facts::size(z);
    let g = grain();
    assert(s <= t * (g * d)) by (nonlinear_arith)
        requires
            s * k <= t * (g * (d * k)),
            k > 0,
    ;
}

/// A wider bound.
pub proof fn lemma_wider(x: Double, n: int, d: int, t: int, t2: int)
    requires
        near(x, n, d, t),
        d > 0,
        t <= t2,
    ensures
        near(x, n, d, t2),
{
    lemma_grains();
    let g = grain();
    assert(t * (g * d) <= t2 * (g * d)) by (nonlinear_arith)
        requires
            t <= t2,
            g > 0,
            d > 0,
    ;
}

/// The opposite number.
pub proof fn lemma_opposite(x: Double, n: int, d: int, t: int)
    requires
        near(x, n, d, t),
    ensures
        near(x.negated(), -n, d, t),
        x.negated().value() == -x.value(),
{
    facts::lemma_units_order(0, 0);
    let v = x.value();
    assert(x.negated().magnitude() == x.magnitude());
    assert(x.negated().value() == -v);
    assert((-v) * d == -(v * d)) by (nonlinear_arith);
}

/// Sums of what is close are close.
pub proof fn lemma_plus(
    x: Double,
    n: int,
    t: int,
    a: int,
    y: Double,
    m: int,
    s: int,
    b: int,
    d: int,
)
    requires
        d > 0,
        near(x, n, d, t) && within(x, a),
        near(y, m, d, s) && within(y, b),
        0 <= a <= 0x1_0000_0000_0000,
        0 <= b <= 0x1_0000_0000_0000,
    ensures
        near(x.plus(y), n + m, d, t + s + 128 * (a + b) + 1),
        within(x.plus(y), a + b + 1),
{
    lemma_grains();
    let (o, g) = (whole(), grain());
    let sum = x.value() + y.value();
    let c = a + b;
    let k = facts::size(sum) as nat;
    assert(a * o + b * o == c * o) by (nonlinear_arith)
        requires
            c == a + b,
    ;
    assert(k <= c * o);
    facts::lemma_units_order(0, 0);
    if sum != 0 {
        facts::lemma_rounded_to_nearest(sum < 0, k, 1);
        lemma_pow2_adds(50, 1074);
        lemma2_to64_rest();
        assert(c * o <= pow2(50) * o) by (nonlinear_arith)
            requires
                c <= pow2(50),
                o > 0,
        ;
        assert(pow2(50) * whole() == pow2(1124));
        facts::lemma_rounds_below(k, 1, x.plus(y).magnitude(), 50);
    } else {
        assert(Double::pack(x.negative() && y.negative(), 0).magnitude() == 0);
    }
    facts::lemma_plus_error(x, y);
    let r = x.plus(y).value();
    let z = r - sum;
    assert(facts::size(z) * 0x20_0000_0000_0000 <= c * o + 0x10_0000_0000_0000);
    assert(c * o == 0x1000_0000_0000_0000 * (c * g)) by (nonlinear_arith)
        requires
            o == 0x1000_0000_0000_0000 * g,
    ;
    assert(facts::size(z) <= 128 * (c * g) + g);
    assert(128 * (c * g) + g == (128 * c + 1) * g) by (nonlinear_arith);
    assert(r * d - (n + m) == z * d + (x.value() * d - n) + (y.value() * d - m)) by (nonlinear_arith)
        requires
            z == r - (x.value() + y.value()),
    ;
    lemma_bounded(z, d, (128 * c + 1) * g, d);
    assert(((128 * c + 1) * g) * d + t * (g * d) + s * (g * d) == (t + s + 128 * c + 1) * (g * d))
        by (nonlinear_arith);
    assert((c + 1) * o == c * o + o) by (nonlinear_arith);
    assert(c * g <= 0x2_0000_0000_0000 * g) by (nonlinear_arith)
        requires
            c <= 0x2_0000_0000_0000,
            g > 0,
    ;
}

/// Products of what is close are close.
pub proof fn lemma_times(
    x: Double,
    n: int,
    d: int,
    t: int,
    a: int,
    y: Double,
    m: int,
    e: int,
    s: int,
    b: int,
)
    requires
        d > 0 && e > 0,
        near(x, n, d, t) && within(x, a),
        near(y, m, e, s) && within(y, b),
        0 <= a <= 0x100_0000_0000,
        0 <= b <= 0x100_0000_0000,
        0 <= a * b <= 0x1_0000_0000_0000,
        0 <= t && 0 <= s,
        t * s <= 0x1000_0000_0000_0000,
    ensures
        near(x.times(y), n * m, d * e * whole(), a * s + b * t + 128 * (a * b) + 2),
        within(x.times(y), a * b + 1),
{
    lemma_grains();
    let (o, g) = (whole(), grain());
    let (v, w) = (x.value(), y.value());
    lemma_bounded(v, w, a * o, b * o);
    let c = a * b;
    assert((a * o) * (b * o) == (c * o) * o) by (nonlinear_arith)
        requires
            c == a * b,
    ;
    lemma_product_finite(x, y, c);
    facts::lemma_times_error(x, y);
    let p = x.times(y).value();
    let z = p * o - v * w;
    // The rounding of the product.
    assert((c * o) * o == 0x1000_0000_0000_0000 * ((c * g) * o)) by (nonlinear_arith)
        requires
            o == 0x1000_0000_0000_0000 * g,
    ;
    assert(facts::size(z) * 0x20_0000_0000_0000 <= 0x1000_0000_0000_0000 * ((c * g) * o) + o
        * 0x10_0000_0000_0000);
    assert(o <= g * o) by (nonlinear_arith)
        requires
            g >= 1,
            o > 0,
    ;
    assert(facts::size(z) <= 128 * ((c * g) * o) + g * o);
    // The errors of the factors.
    let (f, h) = (v * d - n, w * e - m);
    lemma_size(v, d);
    lemma_bounded(v, d, a * o, d);
    lemma_bounded(v * d, h, (a * o) * d, s * (g * e));
    lemma_bounded(w, e, b * o, e);
    assert(facts::size(m) <= (b * o) * e + s * (g * e));
    lemma_bounded(m, f, (b * o) * e + s * (g * e), t * (g * d));
    let q = d * e;
    assert((v * d) * (w * e) == (v * w) * q) by (nonlinear_arith)
        requires
            q == d * e,
    ;
    assert((v * d) * (w * e) - n * m == (v * d) * h + m * f) by (nonlinear_arith)
        requires
            f == v * d - n,
            h == w * e - m,
    ;
    let k = q * o;
    assert(p * k - n * m == z * q + ((v * d) * (w * e) - n * m)) by (nonlinear_arith)
        requires
            z == p * o - v * w,
            k == q * o,
            (v * d) * (w * e) == (v * w) * q,
    ;
    assert(q > 0) by (nonlinear_arith)
        requires
            q == d * e,
            d > 0,
            e > 0,
    ;
    lemma_bounded(z, q, 128 * ((c * g) * o) + g * o, q);
    assert((128 * ((c * g) * o) + g * o) * q == (128 * c + 1) * (g * k)) by (nonlinear_arith)
        requires
            k == q * o,
    ;
    assert(((a * o) * d) * (s * (g * e)) == (a * s) * (g * k)) by (nonlinear_arith)
        requires
            k == q * o,
            q == d * e,
    ;
    assert(((b * o) * e) * (t * (g * d)) == (b * t) * (g * k)) by (nonlinear_arith)
        requires
            k == q * o,
            q == d * e,
    ;
    assert((s * (g * e)) * (t * (g * d)) == (t * s) * ((g * g) * q)) by (nonlinear_arith)
        requires
            q == d * e,
    ;
    let (r1, r2, r3) = ((b * o) * e, s * (g * e), t * (g * d));
    assert((r1 + r2) * r3 == r1 * r3 + r2 * r3) by (nonlinear_arith);
    let gq = (g * g) * q;
    assert(gq >= 0) by (nonlinear_arith)
        requires
            gq == (g * g) * q,
            q > 0,
            g > 0,
    ;
    assert((t * s) * gq <= 0x1000_0000_0000_0000 * gq) by (nonlinear_arith)
        requires
            t * s <= 0x1000_0000_0000_0000,
            gq >= 0,
    ;
    assert(0x1000_0000_0000_0000 * gq == g * k) by (nonlinear_arith)
        requires
            gq == (g * g) * q,
            k == q * o,
            o == 0x1000_0000_0000_0000 * g,
    ;
    assert((128 * c + 1) * (g * k) + (a * s) * (g * k) + (b * t) * (g * k) + g * k == (a * s + b * t
        + 128 * c + 2) * (g * k)) by (nonlinear_arith);
    assert(d * e * o == k);
    // The size of the product.
    assert(facts::size(p * o) <= (c * o) * o + 128 * ((c * g) * o) + g * o);
    lemma_size(p, o);
    assert(128 * ((c * g) * o) + g * o <= o * o) by (nonlinear_arith)
        requires
            0 <= c <= 0x1_0000_0000_0000,
            o == 0x1000_0000_0000_0000 * g,
            g > 0,
    {
        assert(128 * (c * g) + g <= o);
        assert((128 * (c * g) + g) * o <= o * o);
    }
    let sp = facts::size(p);
    assert(sp <= (c + 1) * o) by (nonlinear_arith)
        requires
            sp * o <= (c * o) * o + o * o,
            o > 0,
    ;
}

/// A product of bounded numbers is a number.
proof fn lemma_product_finite(x: Double, y: Double, c: int)
    requires
        x.finite() && y.finite(),
        0 <= c <= 0x1_0000_0000_0000,
        facts::size(x.value() * y.value()) <= (c * whole()) * whole(),
    ensures
        x.times(y).finite(),
{
    lemma_grains();
    let o = whole();
    facts::lemma_units_order(0, 0);
    let (u, w) = (rounding::units(x.magnitude()), rounding::units(y.magnitude()));
    lemma_size(x.value(), y.value());
    let n = u * w;
    facts::lemma_rounded_to_nearest(x.negative() != y.negative(), n, pow2(1074));
    lemma_pow2_adds(50, 1074);
    lemma2_to64_rest();
    assert((c * o) * o <= o * (pow2(50) * o)) by (nonlinear_arith)
        requires
            0 <= c <= pow2(50),
            o > 0,
    ;
    assert(pow2(50) * whole() == pow2(1124));
    facts::lemma_rounds_below(n, pow2(1074), x.times(y).magnitude(), 50);
}

} // verus!
