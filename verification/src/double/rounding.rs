//! Rounding to the nearest double, ties to the even one.
//!
//! The magnitude of a finite double is a whole number of *units*, one unit being the
//! smallest positive double, 2^-1074. Read as an integer, the 63 bits below the sign
//! bit count the magnitudes in increasing order, so "the next larger double" is "one
//! more" and everything about rounding can be said in integers.
use vstd::arithmetic::mul::*;
use vstd::arithmetic::power2::*;
use vstd::prelude::*;

verus! {

/// 2^52, the weight of the hidden leading bit of a normal number.
pub const HIDDEN: u64 = 0x0010_0000_0000_0000;

/// The magnitude bits of infinity. In `units` infinity counts as 2^1024, the value its
/// bits would have if the exponent range went on: that is where rounding overflows.
pub const INFINITE: u64 = 0x7ff0_0000_0000_0000;

/// The number of units in one: 2^1074 units make 1.0.
pub const UNIT_EXP: u32 = 1074;

/// Cell exponents are counted from 2^-1200 units.
const CELL_BIAS: i32 = 1200;

/// The value of the magnitude bits `m`, in units.
pub open spec fn units(m: nat) -> nat {
    if m < HIDDEN {
        m
    } else {
        (HIDDEN + m % (HIDDEN as nat)) as nat * pow2((m / (HIDDEN as nat) - 1) as nat)
    }
}

/// Twice the value half way between the magnitude `m` and the next one.
pub open spec fn halfway(m: nat) -> nat {
    units(m) + units(m + 1)
}

/// `m` is the magnitude nearest to `n / d` units; of two equally near, the even one.
pub open spec fn nearest(n: nat, d: nat, m: nat) -> bool {
    &&& m <= INFINITE
    &&& m > 0 ==> d * halfway((m - 1) as nat) <= 2 * n
    &&& m > 0 && m % 2 == 1 ==> d * halfway((m - 1) as nat) < 2 * n
    &&& m < INFINITE ==> 2 * n <= d * halfway(m)
    &&& m < INFINITE && m % 2 == 1 ==> 2 * n < d * halfway(m)
}

/// `m` is the magnitude nearest to the square root of `n` square units; of two equally
/// near, the even one.
pub open spec fn nearest_root(n: nat, m: nat) -> bool {
    &&& m <= INFINITE
    &&& m > 0 ==> halfway((m - 1) as nat) * halfway((m - 1) as nat) <= 4 * n
    &&& m > 0 && m % 2 == 1 ==> halfway((m - 1) as nat) * halfway((m - 1) as nat) < 4 * n
    &&& m < INFINITE ==> 4 * n <= halfway(m) * halfway(m)
    &&& m < INFINITE && m % 2 == 1 ==> 4 * n < halfway(m) * halfway(m)
}

/// What `round_cell` establishes, with the cell exponent counted from 2^-1200.
spec fn cell_nearest(sig: nat, p: nat, sticky: bool, m: nat) -> bool {
    let scale = pow2(CELL_BIAS as nat);
    let low = 2 * (sig * pow2(p));
    let high = 2 * ((sig + 1) * pow2(p));
    &&& m <= INFINITE
    &&& m > 0 ==> scale * halfway((m - 1) as nat) <= low
    &&& m > 0 && m % 2 == 1 && !sticky ==> scale * halfway((m - 1) as nat) < low
    &&& m < INFINITE && sticky ==> high <= scale * halfway(m)
    &&& m < INFINITE && !sticky ==> low <= scale * halfway(m)
    &&& m < INFINITE && m % 2 == 1 && !sticky ==> low < scale * halfway(m)
}

pub proof fn lemma_units_at(t: nat, q: nat)
    requires
        q < 2 * HIDDEN,
        t == 0 || q >= HIDDEN,
    ensures
        units(t * HIDDEN as nat + q) == q * pow2(t),
        units(t * HIDDEN as nat + q + 1) == (q + 1) * pow2(t),
{
    lemma2_to64();
    lemma_units_value(t, q);
    if q + 1 < 2 * HIDDEN {
        lemma_units_value(t, q + 1);
    } else {
        lemma_units_value(t + 1, HIDDEN as nat);
        lemma_pow2_unfold(t + 1);
        assert(HIDDEN as nat * (2 * pow2(t)) == (2 * HIDDEN as nat) * pow2(t)) by (nonlinear_arith);
    }
}

proof fn lemma_units_value(t: nat, q: nat)
    requires
        q < 2 * HIDDEN,
        t == 0 || q >= HIDDEN,
    ensures
        units(t * HIDDEN as nat + q) == q * pow2(t),
{
    lemma2_to64();
    let m = t * HIDDEN as nat + q;
    if m >= HIDDEN {
        assert(m / (HIDDEN as nat) == t + 1);
        assert(m % (HIDDEN as nat) == q - HIDDEN);
    }
}

proof fn lemma_units_step(m: nat)
    ensures
        units(m) < units(m + 1),
{
    let t: nat = if m < HIDDEN { 0 } else { (m / (HIDDEN as nat) - 1) as nat };
    let q: nat = if m < HIDDEN { m } else { HIDDEN as nat + m % (HIDDEN as nat) };
    lemma_units_at(t, q);
    lemma_pow2_pos(t);
    assert((q + 1) * pow2(t) == q * pow2(t) + pow2(t)) by (nonlinear_arith);
}

/// A larger magnitude has a larger value.
pub proof fn lemma_units_increase(a: nat, b: nat)
    requires
        a < b,
    ensures
        units(a) < units(b),
    decreases b - a,
{
    lemma_units_step((b - 1) as nat);
    if a < b - 1 {
        lemma_units_increase(a, (b - 1) as nat);
    }
}

pub proof fn lemma_halfway_increase(a: nat, b: nat)
    requires
        a < b,
    ensures
        halfway(a) < halfway(b),
{
    lemma_units_increase(a, b);
    lemma_units_increase(a + 1, b + 1);
}

/// No number is nearest to two magnitudes at once.
pub proof fn lemma_nearest_unique(n: nat, d: nat, a: nat, b: nat)
    requires
        d > 0,
        nearest(n, d, a),
        nearest(n, d, b),
    ensures
        a == b,
{
    if a != b {
        let (low, high) = if a < b { (a, b) } else { (b, a) };
        if low + 1 < high {
            lemma_halfway_increase(low, (high - 1) as nat);
            assert(d * halfway(low) < d * halfway((high - 1) as nat)) by (nonlinear_arith)
                requires
                    d > 0,
                    halfway(low) < halfway((high - 1) as nat),
            ;
        }
    }
}

pub proof fn lemma_nearest_root_unique(n: nat, a: nat, b: nat)
    requires
        nearest_root(n, a),
        nearest_root(n, b),
    ensures
        a == b,
{
    if a != b {
        let (low, high) = if a < b { (a, b) } else { (b, a) };
        if low + 1 < high {
            lemma_halfway_increase(low, (high - 1) as nat);
            let (x, y) = (halfway(low), halfway((high - 1) as nat));
            assert(x * x < y * y) by (nonlinear_arith)
                requires
                    x < y,
            ;
        }
    }
}

proof fn lemma_one_shifted(r: u128)
    requires
        r < 128,
    ensures
        1u128 << r == pow2(r as nat),
    decreases r,
{
    if r == 0 {
        lemma2_to64();
        assert(1u128 << 0u128 == 1) by (bit_vector);
    } else {
        let h: u128 = (r - 1) as u128;
        lemma_one_shifted(h);
        lemma_pow2_unfold(r as nat);
        assert(1u128 << r == 2 * (1u128 << h)) by (bit_vector)
            requires
                r == h + 1,
                r < 128,
        ;
    }
}

/// 2^r.
pub(super) fn power_of_two(r: u32) -> (x: u128)
    requires
        r < 128,
    ensures
        x == pow2(r as nat),
{
    proof {
        lemma_one_shifted(r as u128);
    }
    1u128 << r
}

/// The number of significant bits of `x`.
pub(super) fn bit_length(x: u128) -> (n: u32)
    requires
        x > 0,
    ensures
        1 <= n <= 128,
        pow2((n - 1) as nat) <= x < pow2(n as nat),
{
    let mut y: u128 = x;
    let mut n: u32 = 0;
    let mut k: u32 = 64;
    proof {
        lemma2_to64();
        lemma2_to64_rest();
        lemma_pow2_adds(64, 64);
        assert(pow2(128) > u128::MAX) by {
            assert(pow2(64) * pow2(64) == 0x1_0000_0000_0000_0000nat * 0x1_0000_0000_0000_0000nat);
        }
    }
    while k > 0
        invariant
            y > 0,
            k == 64 || k == 32 || k == 16 || k == 8 || k == 4 || k == 2 || k == 1 || k == 0,
            n + 2 * k <= 128,
            k > 0 ==> y < pow2((2 * k) as nat),
            k == 0 ==> y < 2 && n <= 127,
            y * pow2(n as nat) <= x,
            x < (y + 1) * pow2(n as nat),
        decreases k,
    {
        let z: u128 = y >> k;
        proof {
            vstd::bits::lemma_u128_shr_is_div(y, k as u128);
            lemma_pow2_pos(k as nat);
            lemma_pow2_pos(n as nat);
            let w = pow2(k as nat) as int;
            vstd::arithmetic::div_mod::lemma_fundamental_div_mod(y as int, w);
            vstd::arithmetic::div_mod::lemma_mod_bound(y as int, w);
            lemma_pow2_adds(k as nat, k as nat);
            lemma_pow2_adds(k as nat, n as nat);
            lemma2_to64();
        }
        if z > 0 {
            proof {
                let w = pow2(k as nat) as int;
                let v = pow2(n as nat) as int;
                assert(z * w <= y < (z + 1) * w) by (nonlinear_arith)
                    requires
                        y == w * z + y as int % w,
                        0 <= y as int % w < w,
                ;
                assert(z * (w * v) <= x && x < (z + 1) * (w * v)) by (nonlinear_arith)
                    requires
                        z * w <= y,
                        y + 1 <= (z + 1) * w,
                        y * v <= x,
                        x < (y + 1) * v,
                        v > 0,
                ;
                assert(z < w) by (nonlinear_arith)
                    requires
                        z * w <= y,
                        y < w * w,
                        w > 0,
                ;
            }
            y = z;
            n = n + k;
        } else {
            proof {
                let w = pow2(k as nat) as int;
                assert(y < w) by (nonlinear_arith)
                    requires
                        y == w * 0 + y as int % w,
                        0 <= y as int % w < w,
                ;
            }
        }
        k = k / 2;
    }
    proof {
        lemma_pow2_unfold((n + 1) as nat);
        assert(y == 1);
    }
    n + 1
}

/// The whole number of cells below `sig` is split at the rounding position: `q` whole
/// steps of 2^s cells and `rem` cells more.
proof fn lemma_round_split(sig: nat, p: nat, s: nat, t: nat, q: nat, rem: nat, sticky: bool)
    requires
        s >= 1,
        sig == q * pow2(s) + rem,
        rem < pow2(s),
        t + CELL_BIAS == s + p,
        t < 2046,
        q < 2 * HIDDEN,
        t == 0 || q >= HIDDEN,
    ensures
        ({
            let half = pow2((s - 1) as nat);
            let base = t * HIDDEN as nat + q;
            if rem > half || (rem == half && (sticky || q % 2 == 1)) {
                cell_nearest(sig, p, sticky, base + 1)
            } else {
                cell_nearest(sig, p, sticky, base)
            }
        }),
{
    let half = pow2((s - 1) as nat);
    let base = t * HIDDEN as nat + q;
    let scale = pow2(CELL_BIAS as nat);
    let (w, c) = (pow2(s), pow2(p));
    lemma_pow2_pos(p);
    lemma_pow2_pos(CELL_BIAS as nat);
    lemma_pow2_unfold(s);
    lemma_units_at(t, q);
    lemma_units_step(base + 1);
    lemma_pow2_adds(CELL_BIAS as nat, t);
    lemma_pow2_adds(s, p);
    assert(scale * pow2(t) == w * c);
    assert(scale * units(base) == q * (w * c)) by (nonlinear_arith)
        requires
            units(base) == q * pow2(t),
            scale * pow2(t) == w * c,
    ;
    assert(scale * units(base + 1) == (q + 1) * (w * c)) by (nonlinear_arith)
        requires
            units(base + 1) == (q + 1) * pow2(t),
            scale * pow2(t) == w * c,
    ;
    assert(scale * halfway(base) == (2 * q + 1) * (w * c)) by (nonlinear_arith)
        requires
            halfway(base) == units(base) + units(base + 1),
            scale * units(base) == q * (w * c),
            scale * units(base + 1) == (q + 1) * (w * c),
    ;
    assert(2 * (sig * c) == 2 * q * (w * c) + 2 * rem * c) by (nonlinear_arith)
        requires
            sig == q * w + rem,
    ;
    assert(2 * ((sig + 1) * c) == 2 * q * (w * c) + (2 * rem + 2) * c) by (nonlinear_arith)
        requires
            sig == q * w + rem,
    ;
    assert((2 * q + 1) * (w * c) == 2 * q * (w * c) + w * c) by (nonlinear_arith);
    assert(base % 2 == q % 2);
    if rem > half || (rem == half && (sticky || q % 2 == 1)) {
        assert(w * c <= 2 * rem * c) by (nonlinear_arith)
            requires
                w <= 2 * rem,
        ;
        if rem > half {
            assert(w * c < 2 * rem * c) by (nonlinear_arith)
                requires
                    w < 2 * rem,
                    c > 0,
            ;
        }
        assert((2 * rem + 2) * c <= 2 * (w * c)) by (nonlinear_arith)
            requires
                rem + 1 <= w,
        ;
        assert(2 * ((q + 1) * (w * c)) == 2 * q * (w * c) + 2 * (w * c)) by (nonlinear_arith);
        assert(scale * halfway(base + 1) > 2 * (scale * units(base + 1))) by (nonlinear_arith)
            requires
                scale > 0,
                halfway(base + 1) > 2 * units(base + 1),
        ;
        assert(2 * (sig * c) <= 2 * ((sig + 1) * c)) by (nonlinear_arith);
    } else {
        if base > 0 {
            lemma_units_step((base - 1) as nat);
            assert(scale * halfway((base - 1) as nat) < 2 * (scale * units(base)))
                by (nonlinear_arith)
                requires
                    scale > 0,
                    halfway((base - 1) as nat) < 2 * units(base),
            ;
            assert(2 * (q * (w * c)) == 2 * q * (w * c)) by (nonlinear_arith);
        }
        if rem < half {
            assert((2 * rem + 2) * c <= w * c) by (nonlinear_arith)
                requires
                    2 * rem + 2 <= w,
            ;
            assert(2 * rem * c < (2 * rem + 2) * c) by (nonlinear_arith)
                requires
                    c > 0,
            ;
        } else {
            assert(2 * rem * c == w * c) by (nonlinear_arith)
                requires
                    2 * rem == w,
            ;
        }
    }
}

/// A magnitude that the rounding position loses nothing of.
proof fn lemma_round_exact(sig: nat, p: nat, r: nat, t: nat)
    requires
        t + CELL_BIAS + r == p,
        t < 2046,
        sig * pow2(r) < 2 * HIDDEN,
        t == 0 || sig * pow2(r) >= HIDDEN,
    ensures
        cell_nearest(sig, p, false, t * HIDDEN as nat + sig * pow2(r)),
{
    let q = sig * pow2(r);
    let base = t * HIDDEN as nat + q;
    let scale = pow2(CELL_BIAS as nat);
    lemma_pow2_pos(CELL_BIAS as nat);
    lemma_units_at(t, q);
    lemma_units_step(base);
    lemma_pow2_adds(CELL_BIAS as nat, t);
    lemma_pow2_adds((CELL_BIAS + t) as nat, r);
    assert(scale * units(base) == sig * pow2(p)) by (nonlinear_arith)
        requires
            units(base) == (sig * pow2(r)) * pow2(t),
            pow2((CELL_BIAS + t) as nat) == scale * pow2(t),
            pow2(p) == pow2((CELL_BIAS + t) as nat) * pow2(r),
    ;
    assert(scale * halfway(base) > 2 * (scale * units(base))) by (nonlinear_arith)
        requires
            scale > 0,
            halfway(base) > 2 * units(base),
    ;
    if base > 0 {
        lemma_units_step((base - 1) as nat);
        assert(scale * halfway((base - 1) as nat) < 2 * (scale * units(base))) by (nonlinear_arith)
            requires
                scale > 0,
                halfway((base - 1) as nat) < 2 * units(base),
        ;
    }
}

/// A number of at least 2^1024 rounds to infinity.
proof fn lemma_round_overflow(sig: nat, p: nat, len: nat, sticky: bool)
    requires
        len >= 1,
        pow2((len - 1) as nat) <= sig,
        len - 1 + p >= 2046 + 52 + CELL_BIAS,
    ensures
        cell_nearest(sig, p, sticky, INFINITE as nat),
{
    let top = INFINITE as nat;
    let scale = pow2(CELL_BIAS as nat);
    lemma2_to64_rest();
    lemma_pow2_pos(CELL_BIAS as nat);
    lemma_pow2_pos(p);
    lemma_units_value(2046, HIDDEN as nat);
    lemma_units_step((top - 1) as nat);
    lemma_pow2_adds(52, 2046);
    lemma_pow2_adds(2098, CELL_BIAS as nat);
    lemma_pow2_adds((len - 1) as nat, p);
    if len - 1 + p > 2098 + CELL_BIAS {
        lemma_pow2_strictly_increases((2098 + CELL_BIAS) as nat, (len - 1 + p) as nat);
    }
    assert(sig * pow2(p) >= pow2((len - 1) as nat) * pow2(p)) by (nonlinear_arith)
        requires
            sig >= pow2((len - 1) as nat),
    ;
    assert(units(top) == pow2(2098));
    assert(scale * halfway((top - 1) as nat) <= 2 * (scale * units(top))) by (nonlinear_arith)
        requires
            halfway((top - 1) as nat) <= 2 * units(top),
    ;
    assert(scale * pow2(2098) == pow2(2098) * scale) by (nonlinear_arith);
}

/// A number below half a unit rounds to zero.
proof fn lemma_round_underflow(sig: nat, p: nat, sticky: bool)
    requires
        sig < pow2(127),
        p + 128 <= CELL_BIAS,
    ensures
        cell_nearest(sig, p, sticky, 0),
{
    let scale = pow2(CELL_BIAS as nat);
    lemma_pow2_pos(p);
    lemma_units_value(0, 0);
    lemma_units_value(0, 1);
    lemma2_to64();
    lemma_pow2_unfold(128);
    lemma_pow2_adds(128, p);
    if p + 128 < CELL_BIAS {
        lemma_pow2_strictly_increases(p + 128, CELL_BIAS as nat);
    }
    assert(2 * ((sig + 1) * pow2(p)) <= pow2(128) * pow2(p)) by (nonlinear_arith)
        requires
            2 * (sig + 1) <= pow2(128),
    ;
    assert(2 * (sig * pow2(p)) <= 2 * ((sig + 1) * pow2(p))) by (nonlinear_arith);
    assert(scale * halfway(0) == scale) by (nonlinear_arith)
        requires
            halfway(0) == 1,
    ;
}

/// Zero cells are zero.
proof fn lemma_round_zero(p: nat)
    ensures
        cell_nearest(0, p, false, 0),
{
    lemma_units_value(0, 0);
    assert(pow2(CELL_BIAS as nat) * halfway(0) >= 0) by (nonlinear_arith);
}

proof fn lemma_pow2_increases(a: nat, b: nat)
    requires
        a <= b,
    ensures
        pow2(a) <= pow2(b),
{
    if a < b {
        lemma_pow2_strictly_increases(a, b);
    }
}

proof fn lemma_scaled_length(sig: nat, len: nat, r: nat)
    requires
        len >= 1,
        pow2((len - 1) as nat) <= sig < pow2(len),
    ensures
        pow2((len - 1 + r) as nat) <= sig * pow2(r) < pow2(len + r),
{
    lemma_pow2_pos(r);
    lemma_pow2_adds((len - 1) as nat, r);
    lemma_pow2_adds(len, r);
    let (a, b, w) = (pow2((len - 1) as nat), pow2(len), pow2(r));
    assert(a * w <= sig * w < b * w) by (nonlinear_arith)
        requires
            a <= sig < b,
            w > 0,
    ;
}

proof fn lemma_quotient_length(sig: nat, len: nat, s: nat, q: nat)
    requires
        len >= 1,
        pow2((len - 1) as nat) <= sig < pow2(len),
        q * pow2(s) <= sig < (q + 1) * pow2(s),
    ensures
        len <= s ==> q == 0,
        len > s ==> pow2((len - 1 - s) as nat) <= q < pow2((len - s) as nat),
{
    let w = pow2(s);
    lemma_pow2_pos(s);
    if len <= s {
        lemma_pow2_increases(len, s);
        assert(q == 0) by (nonlinear_arith)
            requires
                q * w < w,
                q >= 0,
        ;
    } else {
        lemma_pow2_adds((len - 1 - s) as nat, s);
        lemma_pow2_adds((len - s) as nat, s);
        let (a, b) = (pow2((len - 1 - s) as nat), pow2((len - s) as nat));
        assert(a < q + 1) by (nonlinear_arith)
            requires
                a * w < (q + 1) * w,
                w > 0,
        ;
        assert(q < b) by (nonlinear_arith)
            requires
                q * w < b * w,
                w > 0,
        ;
    }
}

/// The magnitude nearest to a number of which this much is known: in steps of 2^e units
/// it is `sig`, and a fraction of a step more exactly if `sticky`.
fn round_cell(sig: u128, e: i32, sticky: bool) -> (m: u64)
    requires
        sig < 0x8000_0000_0000_0000_0000_0000_0000_0000,
        sticky ==> sig >= 0x40_0000_0000_0000,
        -1200 <= e <= 4000,
    ensures
        cell_nearest(sig as nat, (e + CELL_BIAS) as nat, sticky, m as nat),
{
    let ghost p = (e + CELL_BIAS) as nat;
    proof {
        lemma2_to64();
        lemma2_to64_rest();
        lemma_pow2_adds(64, 63);
        assert(pow2(127) == 0x8000_0000_0000_0000_0000_0000_0000_0000nat);
    }
    if sig == 0 {
        proof {
            lemma_round_zero(p);
        }
        return 0;
    }
    let len: i32 = bit_length(sig) as i32;
    let t: i32 = if len + e > 53 {
        len + e - 53
    } else {
        0
    };
    if t >= 2046 {
        proof {
            lemma_round_overflow(sig as nat, p, len as nat, sticky);
        }
        return INFINITE;
    }
    let s: i32 = t - e;
    let position: u64 = t as u64 * HIDDEN;
    if s <= 0 {
        let r: u32 = (-s) as u32;
        let w: u128 = power_of_two(r);
        proof {
            if sticky && len < 55 {
                lemma_pow2_increases(len as nat, 54);
            }
            lemma_scaled_length(sig as nat, len as nat, r as nat);
            if t == 0 {
                lemma_pow2_increases((len + r) as nat, 53);
            }
            lemma_round_exact(sig as nat, p, r as nat, t as nat);
        }
        position + (sig * w) as u64
    } else if s >= 128 {
        proof {
            lemma_round_underflow(sig as nat, p, sticky);
        }
        0
    } else {
        let q: u128 = sig >> s;
        let w: u128 = power_of_two(s as u32);
        let half: u128 = power_of_two((s - 1) as u32);
        proof {
            lemma_pow2_pos(s as nat);
            vstd::bits::lemma_u128_shr_is_div(sig, s as u128);
            vstd::arithmetic::div_mod::lemma_fundamental_div_mod(sig as int, w as int);
            vstd::arithmetic::div_mod::lemma_mod_bound(sig as int, w as int);
            lemma_mul_is_commutative(q as int, w as int);
            assert((q + 1) * w == q * w + w) by (nonlinear_arith);
            lemma_quotient_length(sig as nat, len as nat, s as nat, q as nat);
            if t == 0 && len > s {
                lemma_pow2_increases((len - s) as nat, 53);
            }
            lemma_round_split(sig as nat, p, s as nat, t as nat, q as nat, (sig - q * w) as nat, sticky);
        }
        let rem: u128 = sig - q * w;
        let m: u64 = position + q as u64;
        if rem > half || (rem == half && (sticky || q % 2 == 1)) {
            m + 1
        } else {
            m
        }
    }
}

/// The magnitude nearest to `n / d` units, given `n / d` to a step of 2^e units.
pub(super) fn round_ratio(
    sig: u128,
    e: i32,
    sticky: bool,
    Ghost(n): Ghost<nat>,
    Ghost(d): Ghost<nat>,
) -> (m: u64)
    requires
        sig < 0x8000_0000_0000_0000_0000_0000_0000_0000,
        sticky ==> sig >= 0x40_0000_0000_0000,
        -1200 <= e <= 4000,
        d > 0,
        !sticky ==> sig * pow2((e + 1200) as nat) * d == n * pow2(1200),
        sticky ==> sig * pow2((e + 1200) as nat) * d < n * pow2(1200) < (sig + 1) * pow2(
            (e + 1200) as nat,
        ) * d,
    ensures
        nearest(n, d, m as nat),
{
    let m = round_cell(sig, e, sticky);
    proof {
        let (c, scale) = (pow2((e + 1200) as nat), pow2(1200));
        lemma_pow2_pos(1200);
        let low = 2 * (sig * c);
        let high = 2 * ((sig + 1) * c);
        assert(low * d == 2 * (sig * c * d)) by (nonlinear_arith)
            requires
                low == 2 * (sig * c),
        ;
        assert(high * d == 2 * ((sig + 1) * c * d)) by (nonlinear_arith)
            requires
                high == 2 * ((sig + 1) * c),
        ;
        assert(2 * (n * scale) == scale * (2 * n)) by (nonlinear_arith);
        if m > 0 {
            let h = halfway((m - 1) as nat);
            if sticky || m % 2 == 0 {
                assert(scale * (d * h) <= low * d) by (nonlinear_arith)
                    requires
                        scale * h <= low,
                ;
            } else {
                assert(scale * (d * h) < low * d) by (nonlinear_arith)
                    requires
                        scale * h < low,
                        d > 0,
                ;
            }
            lemma_scaled_order(scale, d * h, 2 * n);
        }
        if m < INFINITE {
            let h = halfway(m as nat);
            if sticky {
                assert(high * d <= scale * (d * h)) by (nonlinear_arith)
                    requires
                        high <= scale * h,
                ;
            } else if m % 2 == 0 {
                assert(low * d <= scale * (d * h)) by (nonlinear_arith)
                    requires
                        low <= scale * h,
                ;
            } else {
                assert(low * d < scale * (d * h)) by (nonlinear_arith)
                    requires
                        low < scale * h,
                        d > 0,
                ;
            }
            lemma_scaled_order(scale, 2 * n, d * h);
        }
    }
    m
}

proof fn lemma_scaled_order(scale: nat, a: nat, b: nat)
    requires
        scale > 0,
    ensures
        scale * a <= scale * b ==> a <= b,
        scale * a < scale * b ==> a < b,
{
    assert(scale * a <= scale * b ==> a <= b) by (nonlinear_arith)
        requires
            scale > 0,
    ;
    assert(scale * a < scale * b ==> a < b) by (nonlinear_arith)
        requires
            scale > 0,
    ;
}

/// The magnitude nearest to `n` units, given `n` to a step of 2^e units.
pub(super) fn round_whole(sig: u128, e: u32, sticky: bool, Ghost(n): Ghost<nat>) -> (m: u64)
    requires
        sig < 0x8000_0000_0000_0000_0000_0000_0000_0000,
        sticky ==> sig >= 0x40_0000_0000_0000,
        e <= 4000,
        !sticky ==> sig * pow2(e as nat) == n,
        sticky ==> sig * pow2(e as nat) < n < (sig + 1) * pow2(e as nat),
    ensures
        nearest(n, 1, m as nat),
{
    proof {
        let (c, scale) = (pow2(e as nat), pow2(1200));
        lemma_pow2_pos(1200);
        lemma_pow2_adds(e as nat, 1200);
        assert(sig * (c * scale) * 1 == (sig * c) * scale) by (nonlinear_arith);
        assert((sig + 1) * (c * scale) * 1 == ((sig + 1) * c) * scale) by (nonlinear_arith);
        if sticky {
            assert((sig * c) * scale < n * scale < ((sig + 1) * c) * scale) by (nonlinear_arith)
                requires
                    sig * c < n < (sig + 1) * c,
                    scale > 0,
            ;
        }
    }
    round_ratio(sig, e as i32, sticky, Ghost(n), Ghost(1))
}

/// The magnitude nearest to the square root of `n` square units, given the root to a
/// step of 2^e units.
pub(super) fn round_root(sig: u128, e: i32, sticky: bool, Ghost(n): Ghost<nat>) -> (m: u64)
    requires
        sig < 0x8000_0000_0000_0000_0000_0000_0000_0000,
        sticky ==> sig >= 0x40_0000_0000_0000,
        -1200 <= e <= 4000,
        ({
            let c = pow2((e + 1200) as nat);
            let scale = pow2(1200) * pow2(1200);
            &&& !sticky ==> (sig * c) * (sig * c) == n * scale
            &&& sticky ==> (sig * c) * (sig * c) < n * scale < ((sig + 1) * c) * ((sig + 1) * c)
        }),
    ensures
        nearest_root(n, m as nat),
{
    let m = round_cell(sig, e, sticky);
    proof {
        let (c, scale) = (pow2((e + 1200) as nat), pow2(1200));
        lemma_pow2_pos(1200);
        let g = scale * scale;
        assert(g > 0) by (nonlinear_arith)
            requires
                scale > 0,
                g == scale * scale,
        ;
        let (x, y) = ((sig * c) as nat, ((sig + 1) * c) as nat);
        assert((2 * x) * (2 * x) == 4 * (x * x)) by (nonlinear_arith);
        assert((2 * y) * (2 * y) == 4 * (y * y)) by (nonlinear_arith);
        assert(4 * (n * g) == g * (4 * n)) by (nonlinear_arith);
        if m > 0 {
            let h = halfway((m - 1) as nat);
            lemma_square_order(scale * h, 2 * x);
            assert((scale * h) * (scale * h) == g * (h * h)) by (nonlinear_arith)
                requires
                    g == scale * scale,
            ;
            lemma_scaled_order(g, h * h, 4 * n);
        }
        if m < INFINITE {
            let h = halfway(m as nat);
            lemma_square_order(2 * x, scale * h);
            lemma_square_order(2 * y, scale * h);
            assert((scale * h) * (scale * h) == g * (h * h)) by (nonlinear_arith)
                requires
                    g == scale * scale,
            ;
            lemma_scaled_order(g, 4 * n, h * h);
        }
    }
    m
}

proof fn lemma_square_order(a: nat, b: nat)
    ensures
        a <= b ==> a * a <= b * b,
        a < b ==> a * a < b * b,
{
    assert(a <= b ==> a * a <= b * b) by (nonlinear_arith);
    assert(a < b ==> a * a < b * b) by (nonlinear_arith);
}

/// The whole part of the square root of `x`.
pub(super) fn whole_root(x: u128) -> (r: u128)
    requires
        x < 0x40_0000_0000_0000_0000_0000_0000_0000,
    ensures
        r * r <= x < (r + 1) * (r + 1),
        r < 0x800_0000_0000_0000,
{
    let mut r: u128 = 0;
    let mut i: u32 = 59;
    proof {
        lemma2_to64();
        lemma2_to64_rest();
    }
    while i > 0
        invariant
            i <= 59,
            pow2(0) == 1,
            r + pow2(i as nat) <= 0x800_0000_0000_0000,
            r * r <= x,
            x < (r + pow2(i as nat)) * (r + pow2(i as nat)),
        decreases i,
    {
        proof {
            lemma_pow2_unfold(i as nat);
        }
        i = i - 1;
        let c: u128 = r + power_of_two(i);
        assert(c * c <= 0x40_0000_0000_0000_0000_0000_0000_0000) by (nonlinear_arith)
            requires
                0 <= c <= 0x800_0000_0000_0000,
        ;
        if c * c <= x {
            r = c;
        }
    }
    r
}

/// A significand moved up to its full 53 bits, and by how many.
pub(super) fn normalised(m: u64) -> (r: (u64, u32))
    requires
        0 < m < 2 * HIDDEN,
    ensures
        HIDDEN <= r.0 < 2 * HIDDEN,
        r.1 <= 52,
        r.0 == m * pow2(r.1 as nat),
        r.1 > 0 ==> m < HIDDEN,
{
    let n: u32 = bit_length(m as u128);
    proof {
        lemma2_to64();
        lemma2_to64_rest();
        if n > 53 {
            lemma_pow2_increases(53, (n - 1) as nat);
        }
        lemma_scaled_length(m as nat, n as nat, (53 - n) as nat);
        if n < 53 {
            lemma_pow2_increases(n as nat, 52);
        }
    }
    let k: u32 = 53 - n;
    ((m as u128 * power_of_two(k)) as u64, k)
}

} // verus!
