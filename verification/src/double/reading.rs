//! Doubles read from decimal text: the number nearest to what the text writes.
use crate::text;
use crate::text::find;
use vstd::arithmetic::power::*;
use vstd::arithmetic::power2::*;
use vstd::prelude::*;

use super::digits;
use super::digits::{compare_shifted, doubled, of_u64, shifted};
use super::facts;
use super::rounding;
use super::rounding::{HIDDEN, INFINITE};
use super::{Double, QUIET};

verus! {

/// Numbers of this many digits before the point are too large for a double.
const TOO_LARGE: i128 = 350;

/// Numbers with this many zeros behind the point round to zero.
const TOO_SMALL: i128 = -360;

/// No exponent beyond this makes a difference.
const EXPONENT_LIMIT: i128 = 1_000_000_000_000_000_000_000_000_000_000;

/// `n` times 10^p in units: the numerator.
pub open spec fn numerator(n: nat, p: int) -> nat {
    if p >= 0 {
        n * pow(10, p as nat) as nat * pow2(1074)
    } else {
        n * pow2(1074)
    }
}

/// `n` times 10^p in units: the denominator.
pub open spec fn denominator(p: int) -> nat {
    if p >= 0 {
        1
    } else {
        pow(10, (-p) as nat) as nat
    }
}

impl Double {
    /// The double nearest to `n` times 10^p.
    pub open spec fn of_decimal(negative: bool, n: nat, p: int) -> Double {
        Double::rounded(negative, numerator(n, p), denominator(p))
    }
}

/// The exponent that a text writes: digits, with or without a sign.
pub open spec fn exponent(s: Seq<char>) -> Option<int> {
    let digits = unsigned(s);
    if digits.len() > 0 && text::all_digits(digits) {
        let n = text::digits_value(digits) as int;
        Some(
            if is_negative(s) {
                -n
            } else {
                n
            },
        )
    } else {
        None
    }
}

/// The text starts with a minus sign.
pub open spec fn is_negative(s: Seq<char>) -> bool {
    s.len() > 0 && s[0] == '-'
}

/// The text behind a sign, or all of it where there is none.
pub open spec fn unsigned(s: Seq<char>) -> Seq<char> {
    if s.len() > 0 && (s[0] == '+' || s[0] == '-') {
        s.skip(1)
    } else {
        s
    }
}

/// The digits in front of the point.
pub open spec fn whole_part(s: Seq<char>) -> Seq<char> {
    s.take(text::first(s, '.') as int)
}

/// The digits behind the point.
pub open spec fn fraction(s: Seq<char>) -> Seq<char> {
    let dot = text::first(s, '.') as int;
    if dot < s.len() {
        s.skip(dot + 1)
    } else {
        Seq::empty()
    }
}

/// The number that a text without a sign writes, as a whole number and a power of ten:
/// digits, perhaps with a point among them, and perhaps an exponent behind an `e`.
pub open spec fn decimal_number(s: Seq<char>) -> Option<(nat, int)> {
    let e = text::first(s, 'e') as int;
    let (whole, frac) = (whole_part(s.take(e)), fraction(s.take(e)));
    let digits = whole + frac;
    if digits.len() == 0 || !text::all_digits(digits) {
        None
    } else {
        let n = text::digits_value(digits);
        if e == s.len() {
            Some((n, -(frac.len() as int)))
        } else {
            match exponent(s.skip(e + 1)) {
                Some(x) => Some((n, x - frac.len())),
                None => None,
            }
        }
    }
}

/// The real number that a text writes. Capital and small letters count the same.
pub open spec fn real_number(raw: Seq<char>) -> Option<Double> {
    let s = text::lowered(raw);
    let (negative, body) = (is_negative(s), unsigned(s));
    if body == "nan"@ {
        Some(Double::pack(negative, QUIET as nat))
    } else if body == "inf"@ || body == "infinity"@ {
        Some(Double::pack(negative, INFINITE as nat))
    } else {
        match decimal_number(body) {
            Some((n, p)) => Some(Double::of_decimal(negative, n, p)),
            None => None,
        }
    }
}

proof fn lemma_tens(k: nat)
    ensures
        pow2(3 * k) <= pow(10, k),
    decreases k,
{
    reveal(pow);
    if k == 0 {
        lemma2_to64();
    } else {
        lemma_tens((k - 1) as nat);
        lemma_pow2_adds(3, (3 * (k - 1)) as nat);
        lemma2_to64();
    }
}

/// The units of an infinity.
proof fn lemma_infinite_units()
    ensures
        rounding::units(INFINITE as nat) == pow2(1024) * pow2(1074),
{
    lemma2_to64_rest();
    assert(INFINITE as nat / (HIDDEN as nat) == 2047);
    assert(INFINITE as nat % (HIDDEN as nat) == 0);
    assert(pow2(52) == HIDDEN);
    lemma_pow2_adds(52, 2046);
    lemma_pow2_adds(1024, 1074);
}

/// A number with very many digits before the point is nearest to infinity.
proof fn lemma_too_large(n: nat, len: nat, p: int)
    requires
        len > 0,
        pow(10, (len - 1) as nat) <= n,
        len + p > TOO_LARGE,
    ensures
        rounding::nearest(numerator(n, p), denominator(p), INFINITE as nat),
{
    let (big, unit) = (pow2(1024) as int, pow2(1074) as int);
    lemma_tens(350);
    lemma_pow2_strictly_increases(1024, 1050);
    lemma_pow2_pos(1074);
    let (up, down) = (numerator(n, p), denominator(p));
    let top = (len - 1) as nat;
    if p >= 0 {
        let (x, y) = (pow(10, top), pow(10, p as nat));
        lemma_pow_adds(10, top, p as nat);
        lemma_pow_increases(10, 350, (top + p) as nat);
        lemma_pow_positive(10, p as nat);
        assert(big <= n * y) by (nonlinear_arith)
            requires
                x * y >= big,
                x <= n,
                y > 0,
        ;
        assert(big * unit <= (n * y) * unit) by (nonlinear_arith)
            requires
                big <= n * y,
                unit > 0,
        ;
    } else {
        let b = (-p) as nat;
        let rest = (top - b) as nat;
        lemma_pow_adds(10, b, rest);
        lemma_pow_increases(10, 350, rest);
        lemma_pow_positive(10, b);
        let (x, y) = (pow(10, b), pow(10, rest));
        assert(big * x <= n) by (nonlinear_arith)
            requires
                x * y <= n,
                y >= big,
                x > 0,
        ;
        assert((big * unit) * x <= n * unit) by (nonlinear_arith)
            requires
                big * x <= n,
                unit > 0,
        ;
    }
    lemma_infinite_units();
    facts::lemma_nearest_exact(INFINITE as nat, 1);
    facts::lemma_rounded_to_nearest(false, up, down);
    let m = Double::rounded(false, up, down).magnitude();
    let u = rounding::units(INFINITE as nat);
    assert(u * 1 == u);
    assert(u * down <= up * 1);
    facts::lemma_nearest_order(u, 1, INFINITE as nat, up, down, m);
}

/// A number with very many zeros behind the point is nearest to zero.
proof fn lemma_too_small(n: nat, len: nat, p: int)
    requires
        n < pow(10, len),
        len + p < TOO_SMALL,
    ensures
        rounding::nearest(numerator(n, p), denominator(p), 0),
{
    let b = (-p) as nat;
    let rest = (b - len) as nat;
    lemma_tens(360);
    lemma_pow2_strictly_increases(1075, 1080);
    lemma_pow2_unfold(1075);
    lemma_pow_adds(10, len, rest);
    lemma_pow_increases(10, 360, rest);
    lemma_pow_positive(10, len);
    let (x, y, two) = (pow(10, len), pow(10, rest), pow2(1075) as int);
    assert(n * two <= x * y) by (nonlinear_arith)
        requires
            n <= x,
            two <= y,
            two >= 0,
            x > 0,
    ;
    let half = pow2(1074) as int;
    assert(2 * (n * half) == n * two) by (nonlinear_arith)
        requires
            two == 2 * half,
    ;
    assert(rounding::halfway(0) == 1);
    assert(denominator(p) * 1 == denominator(p));
}

/// What binary search looks for: rounding does not go beyond `m`.
spec fn reaches(n: nat, d: nat, m: nat) -> bool {
    2 * n < d * rounding::halfway(m) || (2 * n == d * rounding::halfway(m) && m % 2 == 0)
}

/// Whether rounding does not go beyond `m`. `left` is twice the numerator, the
/// denominator is 10^b.
fn within(left: &Vec<u8>, b: u128, m: u64, Ghost(n): Ghost<nat>) -> (r: bool)
    requires
        digits::canonical(left@),
        digits::low_first(left@) == 2 * n,
        n > 0,
        m < INFINITE,
    ensures
        r == reaches(n, pow(10, b as nat) as nat, m as nat),
{
    let q: u64 = if m < HIDDEN {
        m
    } else {
        HIDDEN + m % HIDDEN
    };
    let t: u32 = if m < HIDDEN {
        0
    } else {
        (m / HIDDEN - 1) as u32
    };
    let right = doubled(of_u64(2 * q + 1), t);
    proof {
        rounding::lemma_units_at(t as nat, q as nat);
        assert(t as nat * HIDDEN as nat + q as nat == m as nat);
        let (x, y) = (q as nat, pow2(t as nat));
        assert(x * y + (x + 1) * y == (2 * x + 1) * y) by (nonlinear_arith);
        assert(rounding::halfway(m as nat) == digits::low_first(right@));
        lemma_pow_positive(10, b as nat);
        let (h, p) = (digits::low_first(right@) as int, pow(10, b as nat));
        assert(h * p == p * h) by (nonlinear_arith);
    }
    let c: i8 = compare_shifted(left, &right, b);
    c == -1 || (c == 0 && m % 2 == 0)
}

/// The magnitude nearest to a number times 10^p. Where `p` is beyond the limit, so is the
/// exact exponent.
fn round_decimal(d: &Vec<u8>, p: i128, Ghost(exact): Ghost<int>) -> (m: u64)
    requires
        digits::canonical(d@),
        digits::low_first(d@) > 0,
        p == exact || (p >= 0x1_0000_0000_0000_0000_0000 && exact >= 0x1_0000_0000_0000_0000_0000)
            || (p <= -0x1_0000_0000_0000_0000_0000 && exact <= -0x1_0000_0000_0000_0000_0000),
        -0x1000_0000_0000_0000_0000_0000_0000_0000 < p < 0x1000_0000_0000_0000_0000_0000_0000_0000,
    ensures
        rounding::nearest(
            numerator(digits::low_first(d@), exact),
            denominator(exact),
            m as nat,
        ),
{
    let ghost n = digits::low_first(d@);
    let top: i128 = d.len() as i128 + p;
    proof {
        digits::lemma_length(d@);
        if d@.len() == 1 {
            assert(digits::low_first(d@.skip(1)) == 0);
        }
    }
    if top > TOO_LARGE {
        proof {
            lemma_too_large(n, d@.len(), exact);
        }
        return INFINITE;
    }
    if top < TOO_SMALL {
        proof {
            lemma_too_small(n, d@.len(), exact);
        }
        return 0;
    }
    assert(p == exact);
    let a: usize = if p >= 0 {
        p as usize
    } else {
        0
    };
    let b: u128 = if p >= 0 {
        0
    } else {
        (-p) as u128
    };
    let left = doubled(shifted(d, a), 1075);
    let ghost up = numerator(n, exact);
    let ghost down = denominator(exact);
    proof {
        lemma_pow2_unfold(1075);
        lemma_pow_positive(10, a as nat);
        lemma_pow_positive(10, b as nat);
        lemma_pow2_pos(1074);
        let (x, y) = (n * pow(10, a as nat) as nat, pow2(1074));
        assert(x * (2 * y) == 2 * (x * y)) by (nonlinear_arith);
        assert(pow(10, 0) == 1) by {
            reveal(pow);
        }
        assert(n * 1 == n) by (nonlinear_arith);
        assert(up == x * y);
        assert(x * y > 0) by (nonlinear_arith)
            requires
                x > 0,
                y > 0,
        ;
        assert(down == pow(10, b as nat));
    }
    let mut low: u64 = 0;
    let mut high: u64 = INFINITE;
    while low < high
        invariant
            low <= high <= INFINITE,
            digits::canonical(left@),
            digits::low_first(left@) == 2 * up,
            up > 0,
            down == pow(10, b as nat),
            low > 0 ==> !reaches(up, down, (low - 1) as nat),
            high < INFINITE ==> reaches(up, down, high as nat),
        decreases high - low,
    {
        let mid: u64 = low + (high - low) / 2;
        if within(&left, b, mid, Ghost(up)) {
            high = mid;
        } else {
            low = mid + 1;
        }
    }
    low
}

/// The digits of a text, the lowest first.
spec fn reversed(s: Seq<char>) -> Seq<u8> {
    Seq::new(s.len(), |i: int| (s[s.len() - 1 - i] as u8 - 48) as u8)
}

proof fn lemma_reversed(s: Seq<char>)
    requires
        text::all_digits(s),
    ensures
        digits::low_first(reversed(s)) == text::digits_value(s),
    decreases s.len(),
{
    if s.len() > 0 {
        let rest = s.drop_last();
        assert forall|i: int| 0 <= i < rest.len() implies text::is_digit(#[trigger] rest[i]) by {
            assert(text::is_digit(s[i]));
        }
        lemma_reversed(rest);
        assert(reversed(s).skip(1) =~= reversed(rest));
        assert(text::is_digit(s[s.len() - 1]));
    }
}

/// The digits of a text, the lowest first, without leading zeros; none where the text
/// writes zero.
fn digits_of(s: &Vec<char>) -> (d: Vec<u8>)
    requires
        text::all_digits(s@),
    ensures
        digits::low_first(d@) == text::digits_value(s@),
        d@.len() > 0 ==> digits::canonical(d@) && digits::low_first(d@) > 0,
        d@.len() == 0 ==> text::digits_value(s@) == 0,
{
    let n: usize = s.len();
    let mut d: Vec<u8> = Vec::new();
    for i in 0..n
        invariant
            n == s@.len(),
            text::all_digits(s@),
            d@ == reversed(s@).take(i as int),
    {
        assert(text::is_digit(s@[n - 1 - i]));
        d.push(s[n - 1 - i] as u8 - 48);
        assert(reversed(s@).take(i + 1) =~= reversed(s@).take(i as int).push(
            reversed(s@)[i as int],
        ));
    }
    proof {
        assert(reversed(s@).take(n as int) =~= reversed(s@));
        lemma_reversed(s@);
        assert forall|i: int| 0 <= i < d@.len() implies #[trigger] d@[i] < 10 by {
            assert(text::is_digit(s@[n - 1 - i]));
        }
    }
    while d.len() > 0 && d[d.len() - 1] == 0
        invariant
            digits::low_first(d@) == text::digits_value(s@),
            forall|i: int| 0 <= i < d@.len() ==> #[trigger] d@[i] < 10,
        decreases d@.len(),
    {
        proof {
            let rest = d@.drop_last();
            digits::lemma_append(rest, 0);
            assert(rest.push(0) =~= d@);
            assert(pow(10, rest.len()) * 0 == 0) by (nonlinear_arith);
        }
        let _ = d.pop();
    }
    proof {
        if d@.len() > 0 {
            digits::lemma_positive(d@);
        }
    }
    d
}

/// The exponent, as far as it makes a difference.
spec fn stands_for(v: i128, x: int) -> bool {
    v == x || (v == EXPONENT_LIMIT && x >= EXPONENT_LIMIT) || (v == -EXPONENT_LIMIT && x
        <= -EXPONENT_LIMIT)
}

fn read_exponent(s: &Vec<char>) -> (r: Option<i128>)
    ensures
        match exponent(s@) {
            Some(x) => r matches Some(v) && stands_for(v, x) && -EXPONENT_LIMIT <= v
                <= EXPONENT_LIMIT,
            None => r is None,
        },
{
    let n: usize = s.len();
    let from: usize = if n > 0 && (s[0] == '+' || s[0] == '-') {
        1
    } else {
        0
    };
    let ghost all = unsigned(s@);
    assert(all =~= s@.skip(from as int));
    if from == n {
        return None;
    }
    let mut value: i128 = 0;
    assert(all.take(0) =~= Seq::empty());
    for i in from..n
        invariant
            n == s@.len(),
            from < n,
            all == s@.skip(from as int),
            all == unsigned(s@),
            0 <= value <= EXPONENT_LIMIT,
            value < EXPONENT_LIMIT ==> value == text::digits_value(all.take(i - from)),
            value == EXPONENT_LIMIT ==> text::digits_value(all.take(i - from)) >= EXPONENT_LIMIT,
            forall|k: int| 0 <= k < i - from ==> text::is_digit(#[trigger] all[k]),
    {
        let c = s[i];
        assert(all[i - from] == c);
        if !('0' <= c && c <= '9') {
            assert(!text::is_digit(all[i - from]));
            return None;
        }
        assert(all.take(i - from + 1).drop_last() =~= all.take(i - from));
        let next: i128 = value * 10 + (c as u8 - 48) as i128;
        value = if next < EXPONENT_LIMIT {
            next
        } else {
            EXPONENT_LIMIT
        };
    }
    assert(all.take(n - from) =~= all);
    if s[0] == '-' {
        Some(-value)
    } else {
        Some(value)
    }
}

/// The number that a text without a sign writes, rounded, with the given sign.
fn read_decimal(s: &Vec<char>, negative: bool) -> (r: Option<Double>)
    ensures
        r == (match decimal_number(s@) {
            Some((n, p)) => Some(Double::of_decimal(negative, n, p)),
            None => None,
        }),
{
    let e: usize = find(s, 0, 'e');
    assert(s@.skip(0) =~= s@);
    let mantissa = text::characters(text::part(s, 0, e).as_str());
    assert(mantissa@ =~= s@.take(e as int));
    let dot: usize = find(&mantissa, 0, '.');
    assert(mantissa@.skip(0) =~= mantissa@);
    let mut digits = text::part(&mantissa, 0, dot);
    let mut places: usize = 0;
    if dot < mantissa.len() {
        places = mantissa.len() - dot - 1;
        let frac = text::part(&mantissa, dot + 1, mantissa.len());
        digits.append(frac.as_str());
        assert(frac@ =~= fraction(mantissa@));
    }
    assert(digits@ =~= whole_part(mantissa@) + fraction(mantissa@));
    let digits = text::characters(digits.as_str());
    if digits.len() == 0 {
        return None;
    }
    for i in 0..digits.len()
        invariant
            e == text::first(s@, 'e'),
            e <= s@.len(),
            mantissa@ == s@.take(e as int),
            digits@ == whole_part(mantissa@) + fraction(mantissa@),
            forall|k: int| 0 <= k < i ==> text::is_digit(#[trigger] digits@[k]),
    {
        if !('0' <= digits[i] && digits[i] <= '9') {
            assert(!text::is_digit(digits@[i as int]));
            return None;
        }
    }
    let mut power: i128 = 0;
    let ghost mut exact: int = 0;
    if e < s.len() {
        let tail = text::characters(text::part(s, e + 1, s.len()).as_str());
        assert(tail@ =~= s@.skip(e + 1));
        match read_exponent(&tail) {
            Some(x) => {
                power = x;
                proof {
                    exact = exponent(tail@)->0;
                }
            },
            None => {
                return None;
            },
        }
    }
    let p: i128 = power - places as i128;
    proof {
        exact = exact - places;
    }
    let d = digits_of(&digits);
    let ghost n = text::digits_value(digits@);
    assert(decimal_number(s@) == Some((n, exact)));
    let m: u64 = if d.len() == 0 {
        proof {
            let down = denominator(exact);
            if exact < 0 {
                lemma_pow_positive(10, (-exact) as nat);
            }
            assert(0 * pow2(1074) == 0) by (nonlinear_arith);
            if exact >= 0 {
                let t = pow(10, exact as nat) as nat;
                assert(0 * t == 0) by (nonlinear_arith);
            }
            facts::lemma_units_order(0, 0);
            facts::lemma_nearest_exact(0, down);
            assert(0 * down == 0) by (nonlinear_arith);
        }
        0
    } else {
        round_decimal(&d, p, Ghost(exact))
    };
    proof {
        let (up, down) = (numerator(n, exact), denominator(exact));
        if exact < 0 {
            lemma_pow_positive(10, (-exact) as nat);
        }
        facts::lemma_rounded_to_nearest(negative, up, down);
        let r = Double::rounded(negative, up, down);
        rounding::lemma_nearest_unique(up, down, m as nat, r.magnitude());
    }
    Some(Double::packed(negative, m))
}

/// The real number that a text writes: the double nearest to it, an infinity, or NaN.
pub fn parse_real(raw: &str) -> (r: Option<Double>)
    ensures
        r == real_number(raw@),
{
    let lowered = text::to_ascii_lowercase(raw);
    let s = text::characters(lowered.as_str());
    let n: usize = s.len();
    let negative: bool = n > 0 && s[0] == '-';
    let from: usize = if n > 0 && (s[0] == '+' || s[0] == '-') {
        1
    } else {
        0
    };
    let body = text::part(&s, from, n);
    assert(body@ =~= unsigned(s@));
    if text::same(body.as_str(), "nan") {
        Some(Double::packed(negative, QUIET))
    } else if text::same(body.as_str(), "inf") || text::same(body.as_str(), "infinity") {
        Some(Double::packed(negative, INFINITE))
    } else {
        read_decimal(&text::characters(body.as_str()), negative)
    }
}

} // verus!
