//! Numbers as they are written in a configuration.
use crate::double::facts;
use crate::double::reading;
use crate::double::Double;
use crate::laws::arithmetic;
use crate::laws::closeness;
use crate::text;
use vstd::arithmetic::power::*;
use vstd::prelude::*;

verus! {

/// No double is closer to `n` times 10^p than the one that is read.
pub proof fn law_decimals_are_rounded(negative: bool, n: nat, p: int, y: Double)
    requires
        Double::of_decimal(negative, n, p).finite(),
        n > 0,
    ensures
        ({
            let x = Double::of_decimal(negative, n, p).value();
            let m = if negative {
                -(n as int)
            } else {
                n as int
            };
            let o = closeness::whole();
            &&& p >= 0 ==> facts::size(x - (m * pow(10, p as nat)) * o) <= facts::size(
                y.value() - (m * pow(10, p as nat)) * o,
            )
            &&& p < 0 ==> facts::size(x * pow(10, (-p) as nat) - m * o) <= facts::size(
                y.value() * pow(10, (-p) as nat) - m * o,
            )
        }),
{
    closeness::lemma_grains();
    let o = closeness::whole();
    let x = Double::of_decimal(negative, n, p);
    let (num, den) = (reading::numerator(n, p), reading::denominator(p));
    let m = if negative {
        -(n as int)
    } else {
        n as int
    };
    if p >= 0 {
        lemma_pow_positive(10, p as nat);
        let t = pow(10, p as nat);
        facts::lemma_rounded_to_nearest(negative, num, den);
        let e = (m * t) * o;
        let f = n * t;
        assert(f > 0) by (nonlinear_arith)
            requires
                f == n * t,
                n > 0,
                t > 0,
        ;
        assert(num == f * o);
        assert(f * o > 0) by (nonlinear_arith)
            requires
                f > 0,
                o > 0,
        ;
        assert(negative ==> e == -(f * o)) by (nonlinear_arith)
            requires
                e == (m * t) * o,
                f == n * t,
                negative ==> m == -(n as int),
        ;
        assert(!negative ==> e == f * o);
        arithmetic::lemma_nearest_signed(x, e, 1, y);
        assert(x.value() * 1 == x.value() && y.value() * 1 == y.value());
    } else {
        let t = pow(10, (-p) as nat);
        lemma_pow_positive(10, (-p) as nat);
        facts::lemma_rounded_to_nearest(negative, num, den);
        let e = m * o;
        assert(n * o > 0) by (nonlinear_arith)
            requires
                n > 0,
                o > 0,
        ;
        assert(negative ==> e == -(n * o)) by (nonlinear_arith)
            requires
                e == m * o,
                negative ==> m == -(n as int),
        ;
        arithmetic::lemma_nearest_signed(x, e, t, y);
    }
}

/// The first of a character that is not there before `n` but at it.
proof fn lemma_first_at(s: Seq<char>, c: char, n: int)
    requires
        0 <= n <= s.len(),
        forall|i: int| 0 <= i < n ==> #[trigger] s[i] != c,
        n < s.len() ==> s[n] == c,
    ensures
        text::first(s, c) == n,
    decreases n,
{
    if n > 0 {
        assert(s[0] != c);
        assert forall|i: int| 0 <= i < n - 1 implies #[trigger] s.skip(1)[i] != c by {
            assert(s[i + 1] != c);
        }
        lemma_first_at(s.skip(1), c, n - 1);
    }
}

/// Digits, perhaps with a point among them, write their number with so many places behind the
/// point, with the sign in front of it.
pub proof fn law_plain_numbers(negative: bool, whole: Seq<char>, frac: Seq<char>)
    requires
        text::all_digits(whole),
        text::all_digits(frac),
        whole.len() + frac.len() > 0,
    ensures
        ({
            let sign = if negative {
                seq!['-']
            } else {
                Seq::<char>::empty()
            };
            let n = text::digits_value(whole + frac);
            reading::real_number(sign + whole + seq!['.'] + frac) == Some(
                Double::of_decimal(negative, n, -(frac.len() as int)),
            )
        }),
{
    let sign = if negative {
        seq!['-']
    } else {
        Seq::<char>::empty()
    };
    let body = whole + seq!['.'] + frac;
    let raw = sign + whole + seq!['.'] + frac;
    let k = whole.len() as int;
    assert forall|i: int| 0 <= i < body.len() implies text::is_digit(#[trigger] body[i]) || body[i]
        == '.' by {
        if i < k {
            assert(body[i] == whole[i]);
        } else if i > k {
            assert(body[i] == frac[i - k - 1]);
        }
    }
    let s = text::lowered(raw);
    assert forall|i: int| 0 <= i < raw.len() implies #[trigger] s[i] == raw[i] by {
        if i >= sign.len() {
            assert(raw[i] == body[i - sign.len()]);
        }
    }
    assert(s =~= raw);
    assert(body[0] != '-' && body[0] != '+');
    assert(raw == sign + body) by {
        assert(raw =~= sign + body);
    }
    if negative {
        assert(raw[0] == '-');
        assert(raw.skip(1) =~= body);
    } else {
        assert(raw =~= body);
    }
    assert(reading::unsigned(s) == body && reading::is_negative(s) == negative);
    reveal_strlit("nan");
    reveal_strlit("inf");
    reveal_strlit("infinity");
    assert("nan"@[0] == 'n' && "inf"@[0] == 'i' && "infinity"@[0] == 'i');
    assert forall|i: int| 0 <= i < body.len() implies #[trigger] body[i] != 'e' by {
        assert(text::is_digit(body[i]) || body[i] == '.');
    }
    lemma_first_at(body, 'e', body.len() as int);
    assert(body.take(body.len() as int) =~= body);
    assert forall|i: int| 0 <= i < k implies #[trigger] body[i] != '.' by {
        assert(body[i] == whole[i]);
        assert(text::is_digit(whole[i]));
    }
    lemma_first_at(body, '.', k);
    assert(body.take(k) =~= whole);
    assert(body.skip(k + 1) =~= frac);
    let digits = whole + frac;
    assert forall|i: int| 0 <= i < digits.len() implies text::is_digit(#[trigger] digits[i]) by {
        if i < k {
            assert(digits[i] == whole[i]);
        } else {
            assert(digits[i] == frac[i - k]);
        }
    }
}

} // verus!
