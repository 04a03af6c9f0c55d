//! Double precision numbers, held by their bit patterns.
//!
//! The estimator needs arithmetic that gives the same answer on every target, with or
//! without a floating-point unit, and that a proof can speak about. This module is IEEE
//! 754 binary64 arithmetic on integers: addition, subtraction, multiplication, division
//! and square root round the exact result to the nearest double, ties to the even one,
//! and comparisons treat NaN as unordered. Every NaN that is produced is the same one.
use vstd::arithmetic::mul::*;
use vstd::arithmetic::power2::*;
use vstd::prelude::*;
use vstd::std_specs::cmp::{PartialEqSpecImpl, PartialOrdSpecImpl};
use vstd::std_specs::ops::{AddSpecImpl, DivSpecImpl, MulSpecImpl, SubSpecImpl};

pub mod decimal;
pub mod digits;
pub mod facts;
pub mod reading;
pub mod rounding;

use rounding::{normalised, round_ratio, round_root, round_whole, whole_root, HIDDEN, INFINITE};

verus! {

/// The sign bit.
pub const SIGN: u64 = 0x8000_0000_0000_0000;

/// The bits of the NaN that invalid operations give.
pub const QUIET: u64 = 0x7ff8_0000_0000_0000;

/// A double precision number.
#[derive(Clone, Copy, Debug)]
pub struct Double {
    pub bits: u64,
}

/// The bits of zero and of the small whole numbers.
pub const ZERO: u64 = 0;

pub const ONE: u64 = 0x3ff0_0000_0000_0000;

pub const TWO: u64 = 0x4000_0000_0000_0000;

pub const THREE: u64 = 0x4008_0000_0000_0000;

impl Default for Double {
    fn default() -> (r: Double)
        ensures
            r == (Double { bits: ZERO }),
    {
        Double { bits: ZERO }
    }
}

impl Double {
    /// The number without its sign, as magnitude bits.
    pub open spec fn magnitude(self) -> nat {
        if self.bits >= SIGN {
            (self.bits - SIGN) as nat
        } else {
            self.bits as nat
        }
    }

    pub open spec fn negative(self) -> bool {
        self.bits >= SIGN
    }

    pub open spec fn nan(self) -> bool {
        self.magnitude() > INFINITE
    }

    pub open spec fn infinite(self) -> bool {
        self.magnitude() == INFINITE
    }

    pub open spec fn finite(self) -> bool {
        self.magnitude() < INFINITE
    }

    /// The value in units of 2^-1074; an infinity counts as 2^1024.
    pub open spec fn value(self) -> int {
        if self.negative() {
            -(rounding::units(self.magnitude()) as int)
        } else {
            rounding::units(self.magnitude()) as int
        }
    }

    pub open spec fn pack(negative: bool, magnitude: nat) -> Double {
        Double {
            bits: if negative {
                (SIGN + magnitude) as u64
            } else {
                magnitude as u64
            },
        }
    }

    /// The double nearest to `n / d` units, with the given sign.
    pub open spec fn rounded(negative: bool, n: nat, d: nat) -> Double {
        Double::pack(negative, choose|m: nat| rounding::nearest(n, d, m))
    }

    /// The double nearest to the square root of `n` square units.
    pub open spec fn rounded_root(n: nat) -> Double {
        Double::pack(false, choose|m: nat| rounding::nearest_root(n, m))
    }

    pub open spec fn quiet() -> Double {
        Double { bits: QUIET }
    }

    pub open spec fn negated(self) -> Double {
        Double::pack(!self.negative(), self.magnitude())
    }

    pub open spec fn absolute(self) -> Double {
        Double::pack(false, self.magnitude())
    }

    /// The rounded sum.
    pub open spec fn plus(self, other: Double) -> Double {
        if self.nan() || other.nan() {
            Double::quiet()
        } else if self.infinite() {
            if other.infinite() && self.negative() != other.negative() {
                Double::quiet()
            } else {
                self
            }
        } else if other.infinite() {
            other
        } else {
            let sum = self.value() + other.value();
            if sum == 0 {
                Double::pack(self.negative() && other.negative(), 0)
            } else if sum < 0 {
                Double::rounded(true, (-sum) as nat, 1)
            } else {
                Double::rounded(false, sum as nat, 1)
            }
        }
    }

    /// The rounded difference.
    pub open spec fn minus(self, other: Double) -> Double {
        self.plus(other.negated())
    }

    /// The rounded product.
    pub open spec fn times(self, other: Double) -> Double {
        let negative = self.negative() != other.negative();
        if self.nan() || other.nan() {
            Double::quiet()
        } else if self.infinite() || other.infinite() {
            if self.magnitude() == 0 || other.magnitude() == 0 {
                Double::quiet()
            } else {
                Double::pack(negative, INFINITE as nat)
            }
        } else {
            Double::rounded(
                negative,
                rounding::units(self.magnitude()) * rounding::units(other.magnitude()),
                pow2(1074),
            )
        }
    }

    /// The rounded quotient.
    pub open spec fn over(self, other: Double) -> Double {
        let negative = self.negative() != other.negative();
        if self.nan() || other.nan() || (self.infinite() && other.infinite()) || (self.magnitude()
            == 0 && other.magnitude() == 0) {
            Double::quiet()
        } else if self.infinite() || other.magnitude() == 0 {
            Double::pack(negative, INFINITE as nat)
        } else if other.infinite() {
            Double::pack(negative, 0)
        } else {
            Double::rounded(
                negative,
                rounding::units(self.magnitude()) * pow2(1074),
                rounding::units(other.magnitude()),
            )
        }
    }

    /// The rounded square root.
    pub open spec fn root(self) -> Double {
        if self.magnitude() == 0 {
            self
        } else if self.nan() || self.negative() {
            Double::quiet()
        } else if self.infinite() {
            self
        } else {
            Double::rounded_root(rounding::units(self.magnitude()) * pow2(1074))
        }
    }

    /// The rounded distance of a point from the origin.
    pub open spec fn distance(self, other: Double) -> Double {
        if self.infinite() || other.infinite() {
            Double::pack(false, INFINITE as nat)
        } else if self.nan() || other.nan() {
            Double::quiet()
        } else {
            let (a, b) = (rounding::units(self.magnitude()), rounding::units(other.magnitude()));
            Double::rounded_root(a * a + b * b)
        }
    }

    /// The double nearest to `n / d`.
    pub open spec fn quotient(negative: bool, n: nat, d: nat) -> Double {
        Double::rounded(negative, n * pow2(1074), d)
    }

    /// The whole number `n`, rounded.
    pub open spec fn whole(n: nat) -> Double {
        Double::rounded(false, n * pow2(1074), 1)
    }

    pub open spec fn below(self, other: Double) -> bool {
        !self.nan() && !other.nan() && self.value() < other.value()
    }

    pub open spec fn at_most(self, other: Double) -> bool {
        !self.nan() && !other.nan() && self.value() <= other.value()
    }

    /// The place in the order of all doubles: negative NaN, negative numbers, -0, +0,
    /// positive numbers, positive NaN.
    pub open spec fn rank(self) -> int {
        if self.negative() {
            -1 - self.magnitude()
        } else {
            self.magnitude() as int
        }
    }

    /// The magnitude bits with the sign of the number: both zeros count the same.
    pub open spec fn signed(self) -> int {
        if self.negative() {
            -(self.magnitude() as int)
        } else {
            self.magnitude() as int
        }
    }

    /// The larger of the two; a NaN gives way to the other.
    pub open spec fn larger(self, other: Double) -> Double {
        if self.nan() || self.below(other) {
            other
        } else {
            self
        }
    }

    /// The number held between the two bounds; NaN stays NaN.
    pub open spec fn held(self, low: Double, high: Double) -> Double {
        if self.below(low) {
            low
        } else if high.below(self) {
            high
        } else {
            self
        }
    }

    pub fn from_bits(bits: u64) -> (r: Double)
        ensures
            r.bits == bits,
    {
        Double { bits }
    }

    pub fn to_bits(self) -> (bits: u64)
        ensures
            bits == self.bits,
    {
        self.bits
    }

    fn magnitude_bits(self) -> (m: u64)
        ensures
            m == self.magnitude(),
    {
        if self.bits >= SIGN {
            self.bits - SIGN
        } else {
            self.bits
        }
    }

    pub fn is_negative(self) -> (r: bool)
        ensures
            r == self.negative(),
    {
        self.bits >= SIGN
    }

    fn packed(negative: bool, magnitude: u64) -> (r: Double)
        requires
            magnitude < SIGN,
        ensures
            r == Double::pack(negative, magnitude as nat),
            r.magnitude() == magnitude,
            r.negative() == negative,
    {
        Double {
            bits: if negative {
                SIGN + magnitude
            } else {
                magnitude
            },
        }
    }

    pub fn is_nan(self) -> (r: bool)
        ensures
            r == self.nan(),
    {
        self.magnitude_bits() > INFINITE
    }

    pub fn is_finite(self) -> (r: bool)
        ensures
            r == self.finite(),
    {
        self.magnitude_bits() < INFINITE
    }

    pub fn abs(self) -> (r: Double)
        ensures
            r == self.absolute(),
    {
        Double::packed(false, self.magnitude_bits())
    }

    pub fn opposite(self) -> (r: Double)
        ensures
            r == self.negated(),
    {
        Double::packed(!self.is_negative(), self.magnitude_bits())
    }

    /// A whole significand and a power of two: `m` times 2^e units.
    fn parts(self) -> (p: (u64, u32))
        requires
            self.finite(),
        ensures
            p.0 < 2 * HIDDEN,
            p.1 <= 2045,
            p.1 > 0 ==> p.0 >= HIDDEN,
            p.0 == 0 <==> self.magnitude() == 0,
            p.1 == (if self.magnitude() < HIDDEN {
                0
            } else {
                self.magnitude() / (HIDDEN as nat) - 1
            }),
            rounding::units(self.magnitude()) == p.0 * pow2(p.1 as nat),
    {
        let m: u64 = self.magnitude_bits();
        proof {
            lemma2_to64();
        }
        if m < HIDDEN {
            (m, 0)
        } else {
            (HIDDEN + m % HIDDEN, (m / HIDDEN - 1) as u32)
        }
    }
}

impl PartialEq for Double {
    fn eq(&self, other: &Double) -> (r: bool) {
        let (a, b) = (self.magnitude_bits(), other.magnitude_bits());
        proof {
            lemma_value_order(*self, *other);
        }
        if a > INFINITE || b > INFINITE {
            false
        } else {
            self.bits == other.bits || (a == 0 && b == 0)
        }
    }
}

impl PartialEqSpecImpl for Double {
    open spec fn obeys_eq_spec() -> bool {
        true
    }

    open spec fn eq_spec(&self, other: &Double) -> bool {
        !self.nan() && !other.nan() && self.value() == other.value()
    }
}

impl PartialOrd for Double {
    fn partial_cmp(&self, other: &Double) -> (r: Option<std::cmp::Ordering>) {
        let (a, b) = (self.magnitude_bits(), other.magnitude_bits());
        proof {
            lemma_value_order(*self, *other);
        }
        if a > INFINITE || b > INFINITE {
            None
        } else if self.bits == other.bits || (a == 0 && b == 0) {
            Some(std::cmp::Ordering::Equal)
        } else if self.is_negative() != other.is_negative() {
            if self.is_negative() {
                Some(std::cmp::Ordering::Less)
            } else {
                Some(std::cmp::Ordering::Greater)
            }
        } else if (a < b) != self.is_negative() {
            Some(std::cmp::Ordering::Less)
        } else {
            Some(std::cmp::Ordering::Greater)
        }
    }
}

impl PartialOrdSpecImpl for Double {
    open spec fn obeys_partial_cmp_spec() -> bool {
        true
    }

    open spec fn partial_cmp_spec(&self, other: &Double) -> Option<std::cmp::Ordering> {
        if self.nan() || other.nan() {
            None
        } else if self.value() < other.value() {
            Some(std::cmp::Ordering::Less)
        } else if self.value() == other.value() {
            Some(std::cmp::Ordering::Equal)
        } else {
            Some(std::cmp::Ordering::Greater)
        }
    }
}

/// Magnitude bits are in the order of the values.
proof fn lemma_value_order(a: Double, b: Double)
    ensures
        a.magnitude() < b.magnitude() ==> rounding::units(a.magnitude()) < rounding::units(
            b.magnitude(),
        ),
        b.magnitude() < a.magnitude() ==> rounding::units(b.magnitude()) < rounding::units(
            a.magnitude(),
        ),
        rounding::units(0) == 0,
        a.magnitude() > 0 ==> rounding::units(a.magnitude()) > 0,
        b.magnitude() > 0 ==> rounding::units(b.magnitude()) > 0,
{
    if a.magnitude() < b.magnitude() {
        rounding::lemma_units_increase(a.magnitude(), b.magnitude());
    }
    if b.magnitude() < a.magnitude() {
        rounding::lemma_units_increase(b.magnitude(), a.magnitude());
    }
    if a.magnitude() > 0 {
        rounding::lemma_units_increase(0, a.magnitude());
    }
    if b.magnitude() > 0 {
        rounding::lemma_units_increase(0, b.magnitude());
    }
}

proof fn lemma_rounded(negative: bool, n: nat, d: nat, m: nat)
    requires
        d > 0,
        rounding::nearest(n, d, m),
    ensures
        Double::rounded(negative, n, d) == Double::pack(negative, m),
{
    let c = choose|m: nat| rounding::nearest(n, d, m);
    rounding::lemma_nearest_unique(n, d, m, c);
}

impl Double {
    /// The sum of two finite numbers, the first at least as far from zero.
    fn add_ordered(self, other: Double) -> (r: Double)
        requires
            self.finite(),
            other.finite(),
            self.magnitude() >= other.magnitude(),
        ensures
            r == self.plus(other),
    {
        let (m1, e1) = self.parts();
        let (m2, e2) = other.parts();
        let same: bool = self.is_negative() == other.is_negative();
        let ghost (u1, u2) = (
            rounding::units(self.magnitude()),
            rounding::units(other.magnitude()),
        );
        let ghost n: nat = if same {
            u1 + u2
        } else {
            (u1 - u2) as nat
        };
        proof {
            lemma_value_order(self, other);
        }
        if m2 == 0 {
            if m1 == 0 {
                return Double::packed(self.is_negative() && other.is_negative(), 0);
            }
            let m: u64 = round_whole(m1 as u128, e1, false, Ghost(n));
            proof {
                lemma_rounded(self.negative(), n, 1, m as nat);
            }
            return Double::packed(self.is_negative(), m);
        }
        assert(e1 >= e2);
        let gap: u32 = e1 - e2;
        if gap <= 73 {
            let w: u128 = rounding::power_of_two(gap);
            proof {
                lemma_aligned(m1 as nat, e1 as nat, m2 as nat, e2 as nat, w as nat);
                lemma_pow2_pos(e2 as nat);
            }
            let high: u128 = m1 as u128 * w;
            let sig: u128 = if same {
                high + m2 as u128
            } else {
                high - m2 as u128
            };
            if sig == 0 {
                return Double::packed(false, 0);
            }
            let m: u64 = round_whole(sig, e2, false, Ghost(n));
            proof {
                lemma_rounded(self.negative(), n, 1, m as nat);
            }
            Double::packed(self.is_negative(), m)
        } else {
            let high: u128 = m1 as u128 * 0x10_0000;
            let sig: u128 = if same {
                high
            } else {
                high - 1
            };
            proof {
                lemma_far_apart(m1 as nat, e1 as nat, m2 as nat, e2 as nat);
            }
            let m: u64 = round_whole(sig, e1 - 20, true, Ghost(n));
            proof {
                lemma_rounded(self.negative(), n, 1, m as nat);
            }
            Double::packed(self.is_negative(), m)
        }
    }
}

proof fn lemma_aligned(m1: nat, e1: nat, m2: nat, e2: nat, w: nat)
    requires
        e2 <= e1 <= e2 + 73,
        w == pow2((e1 - e2) as nat),
        m1 < 2 * HIDDEN,
        m2 < 2 * HIDDEN,
        m1 * pow2(e1) >= m2 * pow2(e2),
    ensures
        m1 * w < 0x4000_0000_0000_0000_0000_0000_0000_0000,
        m1 * w >= m2,
        (m1 * w + m2) * pow2(e2) == m1 * pow2(e1) + m2 * pow2(e2),
        (m1 * w - m2) * pow2(e2) == m1 * pow2(e1) - m2 * pow2(e2),
        m1 * w == m2 <==> m1 * pow2(e1) == m2 * pow2(e2),
{
    let c = pow2(e2);
    lemma_pow2_pos(e2);
    lemma_pow2_adds((e1 - e2) as nat, e2);
    lemma2_to64_rest();
    lemma_pow2_adds(63, 10);
    lemma2_to64();
    if e1 - e2 < 73 {
        lemma_pow2_strictly_increases((e1 - e2) as nat, 73);
    }
    assert(m1 * w < 0x4000_0000_0000_0000_0000_0000_0000_0000) by (nonlinear_arith)
        requires
            m1 < 0x20_0000_0000_0000,
            0 <= w <= 0x200_0000_0000_0000_0000,
    ;
    assert(m1 * pow2(e1) == (m1 * w) * c) by (nonlinear_arith)
        requires
            pow2(e1) == w * c,
    ;
    assert((m1 * w + m2) * c == (m1 * w) * c + m2 * c) by (nonlinear_arith);
    assert((m1 * w - m2) * c == (m1 * w) * c - m2 * c) by (nonlinear_arith);
    assert(m1 * w >= m2 && (m1 * w == m2 <==> (m1 * w) * c == m2 * c)) by (nonlinear_arith)
        requires
            (m1 * w) * c >= m2 * c,
            c > 0,
    ;
}

/// The smaller of two numbers that are far apart is a fraction of a step of the larger.
proof fn lemma_far_apart(m1: nat, e1: nat, m2: nat, e2: nat)
    requires
        e1 > e2 + 73,
        0 < m2 < 2 * HIDDEN,
        HIDDEN <= m1 < 2 * HIDDEN,
    ensures
        ({
            let c = pow2((e1 - 20) as nat);
            let s = (m1 * 0x10_0000) as nat;
            let (u1, u2) = (m1 * pow2(e1), m2 * pow2(e2));
            &&& s * c < u1 + u2 < (s + 1) * c
            &&& (s - 1) * c < u1 - u2 < s * c
        }),
{
    let c = pow2((e1 - 20) as nat);
    let s = (m1 * 0x10_0000) as nat;
    lemma2_to64();
    lemma2_to64_rest();
    lemma_pow2_pos(e2);
    lemma_pow2_adds(20, (e1 - 20) as nat);
    lemma_pow2_adds(53, e2);
    lemma_pow2_strictly_increases(53 + e2, (e1 - 20) as nat);
    assert(s * c == m1 * pow2(e1)) by (nonlinear_arith)
        requires
            s == m1 * 0x10_0000,
            pow2(e1) == 0x10_0000 * c,
    ;
    assert(0 < m2 * pow2(e2) < 0x20_0000_0000_0000 * pow2(e2)) by (nonlinear_arith)
        requires
            0 < m2 < 0x20_0000_0000_0000,
            pow2(e2) > 0,
    ;
    assert((s + 1) * c == s * c + c) by (nonlinear_arith);
    assert((s - 1) * c == s * c - c) by (nonlinear_arith);
}

impl std::ops::Add for Double {
    type Output = Double;

    fn add(self, other: Double) -> Double {
        let (a, b) = (self.magnitude_bits(), other.magnitude_bits());
        if a > INFINITE || b > INFINITE {
            Double { bits: QUIET }
        } else if a == INFINITE {
            if b == INFINITE && self.is_negative() != other.is_negative() {
                Double { bits: QUIET }
            } else {
                self
            }
        } else if b == INFINITE {
            other
        } else if a >= b {
            self.add_ordered(other)
        } else {
            other.add_ordered(self)
        }
    }
}

impl AddSpecImpl for Double {
    open spec fn obeys_add_spec() -> bool {
        true
    }

    open spec fn add_req(self, other: Double) -> bool {
        true
    }

    open spec fn add_spec(self, other: Double) -> Double {
        self.plus(other)
    }
}

impl std::ops::Sub for Double {
    type Output = Double;

    fn sub(self, other: Double) -> Double {
        self + other.opposite()
    }
}

impl SubSpecImpl for Double {
    open spec fn obeys_sub_spec() -> bool {
        true
    }

    open spec fn sub_req(self, other: Double) -> bool {
        true
    }

    open spec fn sub_spec(self, other: Double) -> Double {
        self.minus(other)
    }
}

proof fn lemma_product(m1: nat, e1: nat, m2: nat, e2: nat, p: nat)
    requires
        e1 + e2 + 126 == p,
    ensures
        (m1 * m2) * pow2(p) * pow2(1074) == ((m1 * pow2(e1)) * (m2 * pow2(e2))) * pow2(1200),
{
    lemma_pow2_adds(e1, e2);
    lemma_pow2_adds(p, 1074);
    lemma_pow2_adds(e1 + e2, 1200);
    let (x, y, z) = (pow2(e1), pow2(e2), pow2(1200));
    assert((m1 * m2) * pow2(p) * pow2(1074) == (m1 * m2) * (pow2(p) * pow2(1074)))
        by (nonlinear_arith);
    assert(((m1 * x) * (m2 * y)) * z == (m1 * m2) * ((x * y) * z)) by (nonlinear_arith);
}

impl std::ops::Mul for Double {
    type Output = Double;

    fn mul(self, other: Double) -> Double {
        let (a, b) = (self.magnitude_bits(), other.magnitude_bits());
        let negative: bool = self.is_negative() != other.is_negative();
        if a > INFINITE || b > INFINITE {
            Double { bits: QUIET }
        } else if a == INFINITE || b == INFINITE {
            if a == 0 || b == 0 {
                Double { bits: QUIET }
            } else {
                Double::packed(negative, INFINITE)
            }
        } else {
            let (m1, e1) = self.parts();
            let (m2, e2) = other.parts();
            assert(m1 * m2 < 0x400_0000_0000_0000_0000_0000_0000) by (nonlinear_arith)
                requires
                    0 <= m1 < 0x20_0000_0000_0000,
                    0 <= m2 < 0x20_0000_0000_0000,
            ;
            let sig: u128 = m1 as u128 * m2 as u128;
            let e: i32 = e1 as i32 + e2 as i32 - 1074;
            let ghost n = rounding::units(self.magnitude()) * rounding::units(other.magnitude());
            proof {
                lemma_product(m1 as nat, e1 as nat, m2 as nat, e2 as nat, (e + 1200) as nat);
                lemma_pow2_pos(1074);
            }
            let m: u64 = round_ratio(sig, e, false, Ghost(n), Ghost(pow2(1074)));
            proof {
                lemma_rounded(negative, n, pow2(1074), m as nat);
            }
            Double::packed(negative, m)
        }
    }
}

impl MulSpecImpl for Double {
    open spec fn obeys_mul_spec() -> bool {
        true
    }

    open spec fn mul_req(self, other: Double) -> bool {
        true
    }

    open spec fn mul_spec(self, other: Double) -> Double {
        self.times(other)
    }
}

/// `q` steps and the remainder `rem` make up the quotient of two numbers.
proof fn lemma_quotient(
    m1: nat,
    e1: nat,
    k: nat,
    m2: nat,
    e2: nat,
    e: int,
    q: nat,
    rem: nat,
)
    requires
        m2 > 0,
        (m1 * pow2(k)) * pow2(64) == q * m2 + rem,
        rem < m2,
        e == e1 - k - 64 - e2 + 1074,
        e + 1200 >= 0,
    ensures
        ({
            let (n, d) = ((m1 * pow2(e1)) * pow2(1074), m2 * pow2(e2));
            let c = pow2((e + 1200) as nat);
            &&& d > 0
            &&& rem == 0 ==> q * c * d == n * pow2(1200)
            &&& rem > 0 ==> q * c * d < n * pow2(1200) < (q + 1) * c * d
        }),
{
    let (n, d) = ((m1 * pow2(e1)) * pow2(1074), m2 * pow2(e2));
    let c = pow2((e + 1200) as nat);
    let g = pow2((e + 1200 + e2) as nat);
    lemma_pow2_pos(e2);
    lemma_pow2_pos((e + 1200 + e2) as nat);
    lemma_pow2_adds((e + 1200) as nat, e2);
    lemma_pow2_adds(k, 64);
    lemma_pow2_adds(k + 64, (e + 1200 + e2) as nat);
    lemma_pow2_adds(e1, 1074);
    lemma_pow2_adds(e1 + 1074, 1200);
    assert(k + 64 + (e + 1200 + e2) == e1 + 1074 + 1200);
    let (x, y) = (pow2(k), pow2(64));
    assert(d > 0) by (nonlinear_arith)
        requires
            d == m2 * pow2(e2),
            m2 > 0,
            pow2(e2) > 0,
    ;
    assert(n * pow2(1200) == m1 * ((pow2(e1) * pow2(1074)) * pow2(1200))) by (nonlinear_arith)
        requires
            n == (m1 * pow2(e1)) * pow2(1074),
    ;
    assert(((m1 * x) * y) * g == m1 * ((x * y) * g)) by (nonlinear_arith);
    assert(n * pow2(1200) == (q * m2 + rem) * g);
    assert(q * c * d == (q * m2) * g) by (nonlinear_arith)
        requires
            d == m2 * pow2(e2),
            g == c * pow2(e2),
    ;
    assert((q + 1) * c * d == (q * m2 + m2) * g) by (nonlinear_arith)
        requires
            d == m2 * pow2(e2),
            g == c * pow2(e2),
    ;
    if rem > 0 {
        assert((q * m2) * g < (q * m2 + rem) * g < (q * m2 + m2) * g) by (nonlinear_arith)
            requires
                0 < rem < m2,
                g > 0,
        ;
    }
}

impl std::ops::Div for Double {
    type Output = Double;

    fn div(self, other: Double) -> Double {
        let (a, b) = (self.magnitude_bits(), other.magnitude_bits());
        let negative: bool = self.is_negative() != other.is_negative();
        if a > INFINITE || b > INFINITE || (a == INFINITE && b == INFINITE) || (a == 0 && b == 0) {
            Double { bits: QUIET }
        } else if a == INFINITE || b == 0 {
            Double::packed(negative, INFINITE)
        } else if b == INFINITE {
            Double::packed(negative, 0)
        } else {
            let (m1, e1) = self.parts();
            let (m2, e2) = other.parts();
            let ghost n = rounding::units(self.magnitude()) * pow2(1074);
            let ghost d = rounding::units(other.magnitude());
            proof {
                lemma_value_order(self, other);
            }
            if m1 == 0 {
                assert(n == 0) by (nonlinear_arith)
                    requires
                        n == rounding::units(self.magnitude()) * pow2(1074),
                        rounding::units(self.magnitude()) == 0,
                ;
                assert(0 * pow2(1200) * d == n * pow2(1200)) by (nonlinear_arith)
                    requires
                        n == 0,
                ;
                let m: u64 = round_ratio(0, 0, false, Ghost(n), Ghost(d));
                proof {
                    lemma_rounded(negative, n, d, m as nat);
                }
                return Double::packed(negative, m);
            }
            let (m, k) = normalised(m1);
            let top: u128 = m as u128 * 0x1_0000_0000_0000_0000;
            let (q, rem) = (top / m2 as u128, top % m2 as u128);
            let e: i32 = e1 as i32 - k as i32 - 64 - e2 as i32 + 1074;
            proof {
                vstd::arithmetic::div_mod::lemma_fundamental_div_mod(top as int, m2 as int);
                lemma_mul_is_commutative(m2 as int, q as int);
                lemma2_to64();
                assert(q <= top && q >= 0x40_0000_0000_0000) by (nonlinear_arith)
                    requires
                        top == q * m2 + rem,
                        0 <= rem < m2,
                        1 <= m2 < 0x20_0000_0000_0000,
                        top >= 0x10_0000_0000_0000_0000_0000_0000_0000,
                ;
                lemma_quotient(
                    m1 as nat,
                    e1 as nat,
                    k as nat,
                    m2 as nat,
                    e2 as nat,
                    e as int,
                    q as nat,
                    rem as nat,
                );
            }
            let m: u64 = round_ratio(q, e, rem != 0, Ghost(n), Ghost(d));
            proof {
                lemma_rounded(negative, n, d, m as nat);
            }
            Double::packed(negative, m)
        }
    }
}

impl DivSpecImpl for Double {
    open spec fn obeys_div_spec() -> bool {
        true
    }

    open spec fn div_req(self, other: Double) -> bool {
        true
    }

    open spec fn div_spec(self, other: Double) -> Double {
        self.over(other)
    }
}

/// A root of `s` square steps of 2^e units, taken to whole steps, is that root of `n`
/// square units of which `s` steps and a fraction of a step make up the square.
proof fn lemma_root(s: nat, f: nat, r: nat, n: nat, e: int, exact: bool)
    requires
        e + 1200 >= 0,
        f == pow2((2 * e + 2400) as nat),
        exact ==> n * (pow2(1200) * pow2(1200)) == s * f,
        !exact ==> s * f < n * (pow2(1200) * pow2(1200)) < (s + 1) * f,
        r * r <= s < (r + 1) * (r + 1),
    ensures
        ({
            let c = pow2((e + 1200) as nat);
            let scale = pow2(1200) * pow2(1200);
            &&& exact && r * r == s ==> (r * c) * (r * c) == n * scale
            &&& !(exact && r * r == s) ==> (r * c) * (r * c) < n * scale < ((r + 1) * c) * ((r + 1)
                * c)
        }),
{
    let c = pow2((e + 1200) as nat);
    let scale = pow2(1200) * pow2(1200);
    lemma_pow2_pos((2 * e + 2400) as nat);
    lemma_pow2_adds((e + 1200) as nat, (e + 1200) as nat);
    assert(c * c == f);
    let (a, b) = (r * r, (r + 1) * (r + 1));
    assert((r * c) * (r * c) == a * f) by (nonlinear_arith)
        requires
            a == r * r,
            c * c == f,
    ;
    assert(((r + 1) * c) * ((r + 1) * c) == b * f) by (nonlinear_arith)
        requires
            b == (r + 1) * (r + 1),
            c * c == f,
    ;
    assert(a * f <= s * f && (s + 1) * f <= b * f && s * f < (s + 1) * f) by (nonlinear_arith)
        requires
            a <= s,
            s + 1 <= b,
            f > 0,
    ;
    if a < s {
        assert(a * f < s * f) by (nonlinear_arith)
            requires
                a < s,
                f > 0,
        ;
    }
}

proof fn lemma_rounded_root(n: nat, m: nat)
    requires
        rounding::nearest_root(n, m),
    ensures
        Double::rounded_root(n) == Double::pack(false, m),
{
    let c = choose|m: nat| rounding::nearest_root(n, m);
    rounding::lemma_nearest_root_unique(n, m, c);
}

/// The root of a number of at least 112 bits has bits to spare.
proof fn lemma_long_root(r: nat, s: nat)
    requires
        0x1_0000_0000_0000_0000_0000_0000_0000 <= s,
        s < (r + 1) * (r + 1),
        r < 0x800_0000_0000_0000,
    ensures
        r >= 0x40_0000_0000_0000,
        r * r <= 0x40_0000_0000_0000_0000_0000_0000_0000,
{
    assert(r >= 0x40_0000_0000_0000) by (nonlinear_arith)
        requires
            (r + 1) * (r + 1) > 0x1_0000_0000_0000_0000_0000_0000_0000,
    ;
    assert(r * r <= 0x40_0000_0000_0000_0000_0000_0000_0000) by (nonlinear_arith)
        requires
            0 <= r <= 0x800_0000_0000_0000,
    ;
}

/// The square of `m` steps, each 2^-drop times as long as the steps that it is counted
/// in, and whether it is a whole number of those.
fn square_steps(m: u64, drop: i32) -> (r: (u128, bool))
    requires
        m < 0x20_0000_0000_0000,
        -100 <= drop <= 3000,
        drop <= 0 ==> m * pow2((-drop) as nat) < 0x200_0000_0000_0000,
    ensures
        r.0 <= 0x4_0000_0000_0000_0000_0000_0000_0000,
        drop <= 0 ==> r.0 == (m * pow2((-drop) as nat)) * (m * pow2((-drop) as nat)) && r.1,
        drop > 0 ==> r.0 * pow2((2 * drop) as nat) <= m * m < (r.0 + 1) * pow2((2 * drop) as nat),
        drop > 0 ==> (r.1 <==> r.0 * pow2((2 * drop) as nat) == m * m),
{
    if drop <= 0 {
        let w: u128 = rounding::power_of_two((-drop) as u32);
        let x: u128 = m as u128 * w;
        assert(x * x <= 0x4_0000_0000_0000_0000_0000_0000_0000) by (nonlinear_arith)
            requires
                0 <= x < 0x200_0000_0000_0000,
        ;
        (x * x, true)
    } else {
        assert(m * m < 0x4_0000_0000_0000_0000_0000_0000_0000) by (nonlinear_arith)
            requires
                0 <= m < 0x20_0000_0000_0000,
        ;
        let x: u128 = m as u128 * m as u128;
        let ghost g = pow2((2 * drop) as nat);
        proof {
            lemma_pow2_pos((2 * drop) as nat);
        }
        if drop >= 64 {
            proof {
                lemma2_to64();
                lemma_pow2_adds(64, 64);
                assert(pow2(128) == 0x1_0000_0000_0000_0000nat * 0x1_0000_0000_0000_0000nat);
                if drop > 64 {
                    lemma_pow2_strictly_increases(128, (2 * drop) as nat);
                }
                assert(0 * g == 0 && (0 + 1) * g == g) by (nonlinear_arith);
                assert(m * m == 0 <==> m == 0) by (nonlinear_arith);
            }
            (0, m == 0)
        } else {
            let w: u128 = rounding::power_of_two(2 * drop as u32);
            let q: u128 = x / w;
            proof {
                vstd::arithmetic::div_mod::lemma_fundamental_div_mod(x as int, w as int);
                vstd::arithmetic::div_mod::lemma_mod_bound(x as int, w as int);
                lemma_mul_is_commutative(q as int, w as int);
                assert((q + 1) * w == q * w + w) by (nonlinear_arith);
                assert(q <= x) by (nonlinear_arith)
                    requires
                        q * w <= x,
                        w >= 1,
                        q >= 0,
                ;
            }
            (q, x % w == 0)
        }
    }
}

/// The larger of two numbers, moved up to its full length, leaves room for the smaller.
proof fn lemma_drop(m1: nat, e1: nat, k: nat, m2: nat, e2: nat)
    requires
        e2 <= e1,
        k > 0 ==> e1 == 0,
        m1 * pow2(k) < 2 * HIDDEN,
        m2 < 2 * HIDDEN,
        e1 == e2 ==> m2 <= m1,
        k <= 52,
    ensures
        e1 - k - 4 <= e2 ==> m2 * pow2((e2 - (e1 - k - 4)) as nat) < 0x200_0000_0000_0000,
{
    if e1 - k - 4 <= e2 {
        let j = (e2 - (e1 - k - 4)) as nat;
        lemma2_to64();
        if e1 == e2 {
            lemma_pow2_adds(k, 4);
            assert(m2 * pow2(j) <= 16 * (m1 * pow2(k))) by (nonlinear_arith)
                requires
                    pow2(j) == pow2(k) * 16,
                    m2 <= m1,
            ;
        } else {
            assert(k == 0);
            lemma_pow2_strictly_increases(j, 4);
            assert(m2 * pow2(j) < 0x200_0000_0000_0000) by (nonlinear_arith)
                requires
                    0 <= m2 < 0x20_0000_0000_0000,
                    0 <= pow2(j) < 16,
            ;
        }
    }
}

proof fn lemma_squares(
    m1: nat,
    e1: nat,
    k: nat,
    m2: nat,
    e2: nat,
    e: int,
    whole: nat,
    exact: bool,
)
    requires
        e == e1 - k - 4,
        k <= 52,
        e <= e2 ==> whole == (m2 * pow2((e2 - e) as nat)) * (m2 * pow2((e2 - e) as nat)) && exact,
        e > e2 ==> whole * pow2((2 * (e - e2)) as nat) <= m2 * m2 < (whole + 1) * pow2(
            (2 * (e - e2)) as nat,
        ),
        e > e2 ==> (exact <==> whole * pow2((2 * (e - e2)) as nat) == m2 * m2),
    ensures
        ({
            let (u1, u2) = (m1 * pow2(e1), m2 * pow2(e2));
            let n = u1 * u1 + u2 * u2;
            let m = m1 * pow2(k);
            let s = 256 * (m * m) + whole;
            let f = pow2((2 * e + 2400) as nat);
            &&& exact ==> n * (pow2(1200) * pow2(1200)) == s * f
            &&& !exact ==> s * f < n * (pow2(1200) * pow2(1200)) < (s + 1) * f
        }),
{
    let (u1, u2) = (m1 * pow2(e1), m2 * pow2(e2));
    let n = u1 * u1 + u2 * u2;
    let m = m1 * pow2(k);
    let s = 256 * (m * m) + whole;
    let f = pow2((2 * e + 2400) as nat);
    let scale = pow2(1200) * pow2(1200);
    lemma_pow2_pos((2 * e + 2400) as nat);
    lemma2_to64();
    lemma_pow2_adds(1200, 1200);
    // The larger square.
    lemma_pow2_adds(e1, e1);
    lemma_pow2_adds(2 * e1, 2400);
    lemma_pow2_adds(k, k);
    lemma_pow2_adds(2 * k, 8);
    lemma_pow2_adds(2 * k + 8, (2 * e + 2400) as nat);
    let (a, b) = (pow2(e1), pow2(k));
    assert((u1 * u1) * scale == (m1 * m1) * ((a * a) * scale)) by (nonlinear_arith)
        requires
            u1 == m1 * a,
    ;
    assert((256 * (m * m)) * f == (m1 * m1) * (((b * b) * 256) * f)) by (nonlinear_arith)
        requires
            m == m1 * b,
    ;
    assert((u1 * u1) * scale == (256 * (m * m)) * f);
    // The smaller square.
    lemma_pow2_adds(e2, e2);
    lemma_pow2_adds(2 * e2, 2400);
    let c = pow2(e2);
    let g = pow2(2 * e2 + 2400);
    lemma_pow2_pos(2 * e2 + 2400);
    assert((u2 * u2) * scale == (m2 * m2) * g) by (nonlinear_arith)
        requires
            u2 == m2 * c,
            (c * c) * scale == g,
    ;
    if e <= e2 {
        let j = (e2 - e) as nat;
        lemma_pow2_adds(j, j);
        lemma_pow2_adds(2 * j, (2 * e + 2400) as nat);
        let w = pow2(j);
        assert(whole * f == (m2 * m2) * g) by (nonlinear_arith)
            requires
                whole == (m2 * w) * (m2 * w),
                (w * w) * f == g,
        ;
    } else {
        let w = pow2((2 * (e - e2)) as nat);
        lemma_pow2_adds((2 * (e - e2)) as nat, 2 * e2 + 2400);
        assert(f == w * g);
        assert(whole * f == (whole * w) * g) by (nonlinear_arith)
            requires
                f == w * g,
        ;
        assert((whole + 1) * f == ((whole + 1) * w) * g) by (nonlinear_arith)
            requires
                f == w * g,
        ;
        if !exact {
            assert((whole * w) * g < (m2 * m2) * g) by (nonlinear_arith)
                requires
                    whole * w < m2 * m2,
                    g > 0,
            ;
        }
        assert((m2 * m2) * g < ((whole + 1) * w) * g) by (nonlinear_arith)
            requires
                m2 * m2 < (whole + 1) * w,
                g > 0,
        ;
    }
    assert(n * scale == (u1 * u1) * scale + (u2 * u2) * scale) by (nonlinear_arith)
        requires
            n == u1 * u1 + u2 * u2,
    ;
    assert(s * f == (256 * (m * m)) * f + whole * f) by (nonlinear_arith)
        requires
            s == 256 * (m * m) + whole,
    ;
    assert((s + 1) * f == (256 * (m * m)) * f + (whole + 1) * f) by (nonlinear_arith)
        requires
            s == 256 * (m * m) + whole,
    ;
}

impl Double {
    pub fn sqrt(self) -> (r: Double)
        ensures
            r == self.root(),
    {
        let a: u64 = self.magnitude_bits();
        if a == 0 {
            self
        } else if a > INFINITE || self.is_negative() {
            Double { bits: QUIET }
        } else if a == INFINITE {
            self
        } else {
            let (m1, e1) = self.parts();
            let (m, k) = normalised(m1);
            let f: u32 = e1 + 1074 - k;
            let j: u32 = if f % 2 == 0 {
                62
            } else {
                63
            };
            let half: i32 = ((f - j) / 2) as i32;
            let w: u128 = rounding::power_of_two(j);
            let ghost n = rounding::units(self.magnitude()) * pow2(1074);
            proof {
                lemma2_to64_rest();
                assert(0x4_0000_0000_0000_0000_0000_0000_0000 <= m * w
                    < 0x10_0000_0000_0000_0000_0000_0000_0000) by (nonlinear_arith)
                    requires
                        0x10_0000_0000_0000 <= m < 0x20_0000_0000_0000,
                        0x4000_0000_0000_0000 <= w <= 0x8000_0000_0000_0000,
                ;
            }
            let s: u128 = m as u128 * w;
            let r: u128 = whole_root(s);
            proof {
                lemma_long_root(r as nat, s as nat);
                let square = pow2((2 * half + 2400) as nat);
                lemma_pow2_adds(e1 as nat, 1074);
                lemma_pow2_adds(1200, 1200);
                lemma_pow2_adds((e1 + 1074) as nat, 2400);
                lemma_pow2_adds(k as nat, j as nat);
                lemma_pow2_adds((k + j) as nat, (2 * half + 2400) as nat);
                let (x, y, z) = (pow2(e1 as nat), pow2(1074), pow2(2400));
                assert(((m1 * x) * y) * z == m1 * ((x * y) * z)) by (nonlinear_arith);
                let (u, v) = (pow2(k as nat), pow2(j as nat));
                assert(((m1 * u) * v) * square == m1 * ((u * v) * square)) by (nonlinear_arith);
                lemma_root(s as nat, square, r as nat, n, half as int, true);
            }
            let m: u64 = round_root(r, half, r * r != s, Ghost(n));
            proof {
                lemma_rounded_root(n, m as nat);
            }
            Double::packed(false, m)
        }
    }

    /// The distance of the point (`self`, `other`) from the origin, rounded once.
    pub fn hypot(self, other: Double) -> (r: Double)
        ensures
            r == self.distance(other),
    {
        let (a, b) = (self.magnitude_bits(), other.magnitude_bits());
        if a == INFINITE || b == INFINITE {
            Double::packed(false, INFINITE)
        } else if a > INFINITE || b > INFINITE {
            Double { bits: QUIET }
        } else if a >= b {
            self.hypot_ordered(other)
        } else {
            other.hypot_ordered(self)
        }
    }

    fn hypot_ordered(self, other: Double) -> (r: Double)
        requires
            self.finite(),
            other.finite(),
            self.magnitude() >= other.magnitude(),
        ensures
            r == self.distance(other),
    {
        let (m1, e1) = self.parts();
        let (m2, e2) = other.parts();
        let ghost (u1, u2) = (
            rounding::units(self.magnitude()),
            rounding::units(other.magnitude()),
        );
        let ghost n: nat = u1 * u1 + u2 * u2;
        proof {
            lemma_value_order(self, other);
        }
        if m1 == 0 {
            assert(n == 0) by (nonlinear_arith)
                requires
                    n == u1 * u1 + u2 * u2,
                    u1 == 0,
                    u2 == 0,
            ;
            let m: u64 = round_root(0, 0, false, Ghost(n));
            proof {
                lemma_rounded_root(n, m as nat);
            }
            return Double::packed(false, m);
        }
        let (m, k) = normalised(m1);
        // Both squares in square steps of 2^e units, the smaller one cut to whole steps.
        let e: i32 = e1 as i32 - k as i32 - 4;
        let drop: i32 = e - e2 as i32;
        proof {
            let c = pow2(e2 as nat);
            lemma_pow2_pos(e2 as nat);
            if e1 == e2 {
                assert(m2 <= m1) by (nonlinear_arith)
                    requires
                        m2 * c <= m1 * c,
                        c > 0,
                ;
            }
            lemma_drop(m1 as nat, e1 as nat, k as nat, m2 as nat, e2 as nat);
        }
        let (whole, exact) = square_steps(m2, drop);
        assert(m * m < 0x400_0000_0000_0000_0000_0000_0000) by (nonlinear_arith)
            requires
                0 <= m < 0x20_0000_0000_0000,
        ;
        let s: u128 = m as u128 * m as u128 * 256 + whole;
        let r: u128 = whole_root(s);
        proof {
            assert(256 * (m * m) >= 0x1_0000_0000_0000_0000_0000_0000_0000) by (nonlinear_arith)
                requires
                    m >= 0x10_0000_0000_0000,
            ;
            lemma_long_root(r as nat, s as nat);
            lemma_squares(
                m1 as nat,
                e1 as nat,
                k as nat,
                m2 as nat,
                e2 as nat,
                e as int,
                whole as nat,
                exact,
            );
            assert(m as nat * m as nat * 256 == 256 * (m * m)) by (nonlinear_arith);
            lemma_root(s as nat, pow2((2 * e + 2400) as nat), r as nat, n, e as int, exact);
        }
        let m: u64 = round_root(r, e, r * r != s || !exact, Ghost(n));
        proof {
            lemma_rounded_root(n, m as nat);
        }
        Double::packed(false, m)
    }

    /// The nearest double to a whole number.
    pub fn from_u64(n: u64) -> (r: Double)
        ensures
            r == Double::whole(n as nat),
    {
        let m: u64 = round_whole(n as u128, 1074, false, Ghost(n as nat * pow2(1074)));
        proof {
            lemma_rounded(false, n as nat * pow2(1074), 1, m as nat);
        }
        Double::packed(false, m)
    }

    pub fn max(self, other: Double) -> (r: Double)
        ensures
            r == self.larger(other),
    {
        if self.is_nan() || self < other {
            other
        } else {
            self
        }
    }

    pub fn clamp(self, low: Double, high: Double) -> (r: Double)
        requires
            low.at_most(high),
        ensures
            r == self.held(low, high),
    {
        if self < low {
            low
        } else if high < self {
            high
        } else {
            self
        }
    }

    /// Whether this number comes no later than `other` in the order of all doubles.
    pub fn ranks_up_to(self, other: Double) -> (r: bool)
        ensures
            r == (self.rank() <= other.rank()),
    {
        let (a, b) = (self.magnitude_bits(), other.magnitude_bits());
        if self.is_negative() {
            !other.is_negative() || a >= b
        } else {
            !other.is_negative() && a <= b
        }
    }

    /// The magnitude bits with the sign of the number. Numbers are in the order of these.
    pub fn signed_bits(self) -> (r: i64)
        ensures
            r == self.signed(),
    {
        let m: i64 = self.magnitude_bits() as i64;
        if self.is_negative() {
            -m
        } else {
            m
        }
    }

    /// The double nearest to `n / d`.
    pub fn ratio(negative: bool, n: u128, d: u32) -> (r: Double)
        requires
            n < 0x4000_0000_0000_0000_0000_0000_0000_0000,
            d > 0,
        ensures
            r == Double::quotient(negative, n as nat, d as nat),
    {
        let ghost (up, down) = (n as nat * pow2(1074), d as nat);
        if n == 0 {
            proof {
                assert(0 * pow2(1074) == 0) by (nonlinear_arith);
                facts::lemma_zero_rounds_to_zero(negative, down);
                facts::lemma_rounded_to_nearest(negative, 0, down);
            }
            return Double::packed(negative, 0);
        }
        let len: u32 = rounding::bit_length(n);
        proof {
            lemma2_to64_rest();
            lemma_pow2_adds(63, 63);
            if len > 126 {
                if len - 1 > 126 {
                    lemma_pow2_strictly_increases(126, (len - 1) as nat);
                }
                let (y, z) = (pow2(63), pow2(63));
                assert(y * z == 0x4000_0000_0000_0000_0000_0000_0000_0000) by (nonlinear_arith)
                    requires
                        y == 0x8000_0000_0000_0000,
                        z == 0x8000_0000_0000_0000,
                ;
            }
        }
        let s: u32 = 126 - len;
        let w: u128 = rounding::power_of_two(s);
        proof {
            let (y, z) = (pow2(63), pow2(63));
            assert(y * z == 0x4000_0000_0000_0000_0000_0000_0000_0000) by (nonlinear_arith)
                requires
                    y == 0x8000_0000_0000_0000,
                    z == 0x8000_0000_0000_0000,
            ;
            lemma_pow2_pos(s as nat);
            lemma_pow2_adds(len as nat, s as nat);
            lemma_pow2_adds((len - 1) as nat, s as nat);
            lemma_pow2_unfold(126);
            let (a, b, c) = (pow2((len - 1) as nat), pow2(len as nat), w as nat);
            assert(a * c <= n * c && n * c < b * c) by (nonlinear_arith)
                requires
                    a <= n < b,
                    c > 0,
            ;
        }
        let top: u128 = n * w;
        let (q, rem) = (top / d as u128, top % d as u128);
        proof {
            vstd::arithmetic::div_mod::lemma_fundamental_div_mod(top as int, d as int);
            assert(q <= top && q >= 0x40_0000_0000_0000) by (nonlinear_arith)
                requires
                    top == d * q + rem,
                    0 <= rem < d,
                    1 <= d < 0x1_0000_0000,
                    top >= 0x2000_0000_0000_0000_0000_0000_0000_0000,
            ;
            lemma_pow2_adds(s as nat, (2274 - s) as nat);
            lemma_pow2_adds(1074, 1200);
            lemma_pow2_pos((2274 - s) as nat);
            let (c, x) = (pow2((2274 - s) as nat), pow2(s as nat));
            assert(up * pow2(1200) == n as nat * (pow2(1074) * pow2(1200))) by (nonlinear_arith)
                requires
                    up == n as nat * pow2(1074),
            ;
            assert(n as nat * (x * c) == (n as nat * x) * c) by (nonlinear_arith);
            assert(q * c * d == (d * q) * c) by (nonlinear_arith);
            assert((q + 1) * c * d == (d * q + d) * c) by (nonlinear_arith);
            if rem > 0 {
                assert((d * q) * c < (d * q + rem) * c < (d * q + d) * c) by (nonlinear_arith)
                    requires
                        0 < rem < d,
                        c > 0,
                ;
            }
        }
        let m: u64 = round_ratio(q, 1074 - s as i32, rem != 0, Ghost(up), Ghost(down));
        proof {
            lemma_rounded(negative, up, down, m as nat);
        }
        Double::packed(negative, m)
    }
}

} // verus!
