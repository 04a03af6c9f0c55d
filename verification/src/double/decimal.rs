//! Doubles written out in decimal, to a fixed number of places.
use crate::text;
use vstd::arithmetic::div_mod::*;
use vstd::arithmetic::mul::*;
use vstd::arithmetic::power::*;
use vstd::arithmetic::power2::*;
use vstd::prelude::*;

use super::digits::{doubled, of_u64, text_of};
use super::rounding;
use super::rounding::power_of_two;
use super::Double;

verus! {

/// The most places that a number is written to.
pub const MAX_PLACES: u32 = 20;

/// The magnitude bits of 2^52. From here on all numbers are whole.
pub const WHOLE: u64 = 0x4330_0000_0000_0000;

/// The whole number nearest to `n / d`; of two equally near, the even one.
pub open spec fn nearest_whole(n: nat, d: nat) -> nat {
    let (q, r) = (n / d, n % d);
    if 2 * r > d || (2 * r == d && q % 2 == 1) {
        q + 1
    } else {
        q
    }
}

/// The last `width` decimal digits of a number, with leading zeros.
pub open spec fn last_digits(n: nat, width: nat) -> Seq<char>
    decreases width,
{
    if width == 0 {
        Seq::empty()
    } else {
        last_digits(n / 10, (width - 1) as nat).push(text::digit(n % 10))
    }
}

/// A number of 10^-places, written out with that many places.
pub open spec fn with_places(n: nat, places: nat) -> Seq<char> {
    let one = pow(10, places) as nat;
    if places == 0 {
        text::decimal(n)
    } else {
        text::decimal(n / one) + seq!['.'] + last_digits(n, places)
    }
}

impl Double {
    /// The number of 10^-places nearest to the magnitude of a finite number.
    pub open spec fn in_places(self, places: nat) -> nat {
        nearest_whole(
            rounding::units(self.magnitude()) * pow(10, places) as nat,
            pow2(rounding::UNIT_EXP as nat),
        )
    }

    /// The number to a fixed number of decimal places.
    pub open spec fn fixed(self, places: nat) -> Seq<char> {
        if self.nan() {
            "NaN"@
        } else {
            let sign = if self.negative() {
                seq!['-']
            } else {
                Seq::empty()
            };
            sign + if self.infinite() {
                "inf"@
            } else {
                with_places(self.in_places(places), places)
            }
        }
    }
}

/// The last `width` decimal digits of a number.
fn tail(n: u128, width: u32) -> (r: String)
    ensures
        r@ == last_digits(n as nat, width as nat),
    decreases width,
{
    if width == 0 {
        let out = String::new();
        assert(out@ =~= Seq::empty());
        out
    } else {
        let mut out = tail(n / 10, width - 1);
        out.push((48 + (n % 10) as u8) as char);
        out
    }
}

/// 10^n.
fn ten_to(n: u32) -> (r: u128)
    requires
        n <= MAX_PLACES,
    ensures
        r == pow(10, n as nat),
        1 <= r <= 100_000_000_000_000_000_000,
{
    let mut r: u128 = 1;
    assert(pow(10, 0) == 1) by {
        reveal(pow);
    }
    for i in 0..n
        invariant
            r == pow(10, i as nat),
            n <= MAX_PLACES,
            r >= 1,
    {
        proof {
            assert(pow(10, (i + 1) as nat) == 10 * pow(10, i as nat)) by {
                reveal(pow);
            }
            lemma_pow_increases(10, i as nat, 19);
            assert(pow(10, 19) == 10_000_000_000_000_000_000) by {
                reveal(pow);
                reveal_with_fuel(pow, 20);
            }
        }
        r = r * 10;
    }
    proof {
        lemma_pow_increases(10, n as nat, 20);
        assert(pow(10, 20) == 100_000_000_000_000_000_000) by {
            reveal(pow);
            reveal_with_fuel(pow, 21);
        }
    }
    r
}

/// Scaling both sides leaves the nearest whole number alone.
proof fn lemma_nearest_scaled(n: nat, d: nat, c: nat)
    requires
        d > 0,
        c > 0,
    ensures
        nearest_whole(n * c, d * c) == nearest_whole(n, d),
{
    let (q, r) = (n / d, n % d);
    lemma_fundamental_div_mod(n as int, d as int);
    assert(n * c == q * (d * c) + r * c && 0 <= r * c < d * c) by (nonlinear_arith)
        requires
            n == d * q + r,
            0 <= r < d,
            c > 0,
    ;
    lemma_fundamental_div_mod_converse((n * c) as int, (d * c) as int, q as int, (r * c) as int);
    assert(2 * (r * c) > d * c <==> 2 * r > d) by (nonlinear_arith)
        requires
            c > 0,
    ;
    assert(2 * (r * c) == d * c <==> 2 * r == d) by (nonlinear_arith)
        requires
            c > 0,
    ;
}

/// A whole number has only zeros behind the point.
proof fn lemma_no_fraction(n: nat, places: nat)
    ensures
        n * pow(10, places) as nat / (pow(10, places) as nat) == n,
        last_digits(n * pow(10, places) as nat, places) == Seq::new(places, |i: int| '0'),
        pow(10, places) > 0,
    decreases places,
{
    reveal(pow);
    if places == 0 {
        assert(n * 1 == n) by (nonlinear_arith);
    } else {
        let before = (places - 1) as nat;
        lemma_no_fraction(n, before);
        let p = pow(10, before);
        assert(n * (10 * p) == 10 * (n * p) && 10 * p > 0) by (nonlinear_arith)
            requires
                p > 0,
        ;
        let t = n * (10 * p);
        lemma_div_by_multiple(n as int, 10 * p);
        assert(t as nat / 10 == n * p && t as nat % 10 == 0);
        assert(text::digit(0) == '0');
        assert(Seq::new(places, |i: int| '0') =~= Seq::new(before, |i: int| '0').push('0'));
    }
}

impl Double {
    /// The number of 10^-places nearest to the magnitude of a number below 2^52.
    pub(crate) fn scaled(self, places: u32) -> (r: u128)
        requires
            places <= MAX_PLACES,
            self.magnitude() < WHOLE,
        ensures
            r == self.in_places(places as nat),
            r <= 0x100_0000_0000_0000_0000_0000_0000_0000,
    {
        let (m, e) = self.parts();
        let one: u128 = ten_to(places);
        let ghost units = rounding::units(self.magnitude());
        proof {
            lemma_pow2_pos(e as nat);
        }
        let k: u32 = rounding::UNIT_EXP - e;
        let ghost p = pow(10, places as nat) as nat;
        assert(m as u128 * one < 0x100_0000_0000_0000_0000_0000_0000_0000) by (nonlinear_arith)
            requires
                m < 0x20_0000_0000_0000,
                one <= 100_000_000_000_000_000_000,
        ;
        let n: u128 = m as u128 * one;
        proof {
            lemma_pow2_adds(k as nat, e as nat);
            lemma_pow2_pos(k as nat);
            let (a, b) = (m as nat, pow2(e as nat));
            assert(a * b * p == (a * p) * b) by (nonlinear_arith);
            lemma_nearest_scaled(n as nat, pow2(k as nat), pow2(e as nat));
        }
        assert(self.in_places(places as nat) == nearest_whole(n as nat, pow2(k as nat)));
        if k >= 125 {
            proof {
                lemma2_to64();
                lemma2_to64_rest();
                lemma_pow2_adds(60, 61);
                lemma_pow2_adds(121, (k - 121) as nat);
                lemma_pow2_pos((k - 121) as nat);
                lemma_pow2_adds(4, (k - 125) as nat);
                lemma_pow2_pos((k - 125) as nat);
                let (c, x) = (pow2(4) as int, pow2((k - 125) as nat) as int);
                assert(c * x >= 16) by (nonlinear_arith)
                    requires
                        c == 16,
                        x >= 1,
                ;
                let (a, b) = (pow2(121) as int, pow2((k - 121) as nat) as int);
                assert(a * b >= a * 16) by (nonlinear_arith)
                    requires
                        b >= 16,
                        a >= 0,
                ;
                let (y, z) = (pow2(60), pow2(61));
                assert(y * z == 0x200_0000_0000_0000_0000_0000_0000_0000) by (nonlinear_arith)
                    requires
                        y == 0x1000_0000_0000_0000,
                        z == 0x2000_0000_0000_0000,
                ;
                lemma_small_mod(n as nat, pow2(k as nat));
                lemma_basic_div(n as int, pow2(k as nat) as int);
            }
            0
        } else {
            let d: u128 = power_of_two(k);
            proof {
                lemma2_to64();
                lemma2_to64_rest();
                lemma_pow2_adds(62, 63);
                lemma_pow2_strictly_increases(k as nat, 125);
                let (y, z) = (pow2(62), pow2(63));
                assert(y * z == 0x2000_0000_0000_0000_0000_0000_0000_0000) by (nonlinear_arith)
                    requires
                        y == 0x4000_0000_0000_0000,
                        z == 0x8000_0000_0000_0000,
                ;
            }
            let (q, rest) = (n / d, n % d);
            proof {
                assert(q <= n) by (nonlinear_arith)
                    requires
                        q == n / d,
                        d > 0,
                ;
            }
            if 2 * rest > d || (2 * rest == d && q % 2 == 1) {
                q + 1
            } else {
                q
            }
        }
    }

    /// The number to a fixed number of decimal places.
    pub fn to_fixed(self, places: u32) -> (r: String)
        requires
            places <= MAX_PLACES,
        ensures
            r@ == self.fixed(places as nat),
    {
        let mut out = String::new();
        if self.is_nan() {
            out.append("NaN");
            assert(out@ =~= "NaN"@);
            return out;
        }
        if self.is_negative() {
            out.push('-');
        }
        let ghost sign = out@;
        assert(sign =~= if self.negative() { seq!['-'] } else { Seq::empty() });
        if !self.is_finite() {
            out.append("inf");
            return out;
        }
        let (m, e) = self.parts();
        let one: u128 = ten_to(places);
        let ghost units = rounding::units(self.magnitude());
        let ghost exp = rounding::UNIT_EXP as nat;
        proof {
            lemma_pow2_pos(e as nat);
        }
        if e >= rounding::UNIT_EXP {
            let j: u32 = e - rounding::UNIT_EXP;
            proof {
                let (w, p, a, b) = (
                    m as nat * pow2(j as nat),
                    pow(10, places as nat) as nat,
                    pow2(j as nat),
                    pow2(exp),
                );
                lemma_pow2_adds(exp, j as nat);
                lemma_pow2_pos(exp);
                assert(units * p == (w * p) * b) by (nonlinear_arith)
                    requires
                        units == m as nat * (b * a),
                        w == m as nat * a,
                ;
                lemma_div_by_multiple((w * p) as int, b as int);
                lemma_mod_multiples_basic((w * p) as int, b as int);
                assert(self.in_places(places as nat) == w * p);
                lemma_no_fraction(w, places as nat);
                assert(p == 1 ==> w * p == w) by (nonlinear_arith);
                assert(pow(10, 0) == 1) by {
                    reveal(pow);
                }
            }
            let whole = doubled(of_u64(m), j);
            out.append(text_of(&whole).as_str());
            if places > 0 {
                out.push('.');
                let ghost head = out@;
                for i in 0..places
                    invariant
                        out@ == head + Seq::new(i as nat, |k: int| '0'),
                {
                    out.push('0');
                    assert(Seq::new((i + 1) as nat, |k: int| '0') =~= Seq::new(
                        i as nat,
                        |k: int| '0',
                    ).push('0'));
                }
            }
            assert(out@ =~= self.fixed(places as nat));
            return out;
        }
        let scaled: u128 = self.scaled(places);
        let ghost p = pow(10, places as nat) as nat;
        assert(p == one);
        let whole = text::number(scaled / one);
        assert(whole@ == text::decimal(scaled as nat / p));
        out.append(whole.as_str());
        if places > 0 {
            out.push('.');
            out.append(tail(scaled, places).as_str());
            assert(out@ =~= sign + (text::decimal(scaled as nat / p) + seq!['.'] + last_digits(
                scaled as nat,
                places as nat,
            )));
        } else {
            assert(one == 1) by {
                reveal(pow);
            }
            assert(scaled as nat / p == scaled) by (nonlinear_arith)
                requires
                    p == 1,
            ;
        }
        assert(out@ =~= sign + with_places(scaled as nat, places as nat));
        out
    }
}

} // verus!
